//! The ring of commands: from the tail to the head, entry by entry.
#[allow(unused_imports)]
use crate::bytes::{be32, be64, le32, le64, lemma_le32_bytes};
#[allow(unused_imports)]
use crate::data_buffer::{
    gather, inside, least, lemma_read_back, lemma_scatter_frame, offsets_from, scatter,
};
use crate::error::TcmuError;
#[allow(unused_imports)]
use crate::scsi::{
    cdb_at, command_reply, data_in, data_offsets, lemma_data_in_frame, refusal_sense, Reply,
    CHECK_CONDITION,
};
use crate::scsi::{handle_command, load_cdb, NO_SENSE};
#[allow(unused_imports)]
use crate::scsi_laws::{lemma_data_in_one_buffer, lemma_no_data, lemma_read_write};
#[allow(unused_imports)]
use crate::tcmu::funcs::{hdr_len, hdr_op};
use crate::tcmu::funcs::{tcmu_hdr_get_len, tcmu_hdr_get_op};
#[allow(unused_imports)]
use crate::tcmu::{
    iov_table, with_sense, with_status, ENTRY_CDB_OFF, ENTRY_IOV_CNT, ENTRY_SENSE_BUFFER,
    ENTRY_SIZE, SENSE_BUFFER_SIZE,
};
use crate::tcmu::{CmdEntry, Mailbox, ENTRY_SCSI_STATUS, TCMU_OP_CMD, TCMU_OP_PAD};
#[allow(unused_imports)]
use vstd::arithmetic::div_mod::{
    lemma_fundamental_div_mod, lemma_mod_bound, lemma_mod_multiples_basic, lemma_mod_self_0,
    lemma_small_mod,
};
#[allow(unused_imports)]
use vstd::arithmetic::mul::lemma_mul_is_commutative;
use vstd::prelude::*;

verus! {

/// What handling one entry leads to: the region as it is then, and whether to go on. An entry
/// that was handled has a length.
pub struct Handled {
    pub mem: Seq<u8>,
    pub len: Result<u32, TcmuError>,
}

/// What handling the ring leads to: the region as it is then, and the number of entries handled
/// with the tail behind the last of them.
pub struct Walked {
    pub mem: Seq<u8>,
    pub end: Result<(nat, u32), TcmuError>,
}

/// What handling the command in the entry at `off` leads to.
pub open spec fn command_at(mem: Seq<u8>, off: int, len: u32) -> Handled {
    match cdb_at(mem, le64(mem, off + ENTRY_CDB_OFF)) {
        Err(e) => Handled { mem, len: Err(e) },
        Ok(cdb) => match command_reply(cdb) {
            Reply::Done => Handled { mem: with_status(mem, off, NO_SENSE), len: Ok(len) },
            Reply::Data(data) => match data_in(
                mem,
                off,
                le32(mem, off + ENTRY_IOV_CNT) as nat,
                data,
            ) {
                Ok(m) => Handled { mem: with_status(m, off, NO_SENSE), len: Ok(len) },
                Err(e) => Handled { mem, len: Err(e) },
            },
            Reply::Refused => Handled {
                mem: with_sense(mem, off, CHECK_CONDITION, refusal_sense()),
                len: Ok(len),
            },
            Reply::Fault(e) => Handled { mem, len: Err(e) },
        },
    }
}

/// What handling the entry at `off` leads to.
pub open spec fn entry_at(mem: Seq<u8>, off: int) -> Handled {
    let op = hdr_op(le32(mem, off));
    let len = hdr_len(le32(mem, off)) as u32;
    if off + ENTRY_SIZE > mem.len() {
        Handled { mem, len: Err(TcmuError::OutOfBounds) }
    } else if op == TCMU_OP_CMD {
        command_at(mem, off, len)
    } else if op == TCMU_OP_PAD {
        Handled { mem, len: Ok(len) }
    } else {
        Handled { mem, len: Err(TcmuError::UnknownOp(op as u32)) }
    }
}

/// The tail behind an entry of `len` bytes, in a ring of `cmdr_size` bytes at `cmdr_off`.
pub open spec fn tail_after(tail: u32, len: u32, cmdr_size: u32, cmdr_off: u32) -> Result<
    u32,
    TcmuError,
> {
    if tail + len > u32::MAX {
        Err(TcmuError::OffsetOverflow)
    } else if cmdr_size == 0 {
        Err(TcmuError::EmptyRing)
    } else if cmdr_off + (tail + len) % (cmdr_size as int) > u32::MAX {
        Err(TcmuError::OffsetOverflow)
    } else {
        Ok(((tail + len) % (cmdr_size as int)) as u32)
    }
}

/// What handling the ring leads to, from `tail` to `head`, after `n` entries were handled.
pub open spec fn walk_from(
    mem: Seq<u8>,
    tail: u32,
    head: u32,
    cmdr_size: u32,
    cmdr_off: u32,
    n: nat,
) -> Walked
    decreases usize::MAX - n,
{
    if tail == head {
        Walked { mem, end: Ok((n, tail)) }
    } else {
        let handled = entry_at(mem, cmdr_off + tail);
        match handled.len {
            Err(e) => Walked { mem: handled.mem, end: Err(e) },
            Ok(len) => match tail_after(tail, len, cmdr_size, cmdr_off) {
                Err(e) => Walked { mem: handled.mem, end: Err(e) },
                Ok(next) => if n >= usize::MAX {
                    Walked { mem: handled.mem, end: Err(TcmuError::TooManyEntries) }
                } else {
                    walk_from(handled.mem, next, head, cmdr_size, cmdr_off, n + 1)
                },
            },
        }
    }
}

/// What handling the ring leads to, as the mailbox gives it.
pub open spec fn walk(mem: Seq<u8>, mb: Mailbox, cmdr_size: u32, cmdr_off: u32) -> Walked {
    if cmdr_off + mb.cmd_head > u32::MAX || cmdr_off + mb.cmd_tail > u32::MAX {
        Walked { mem, end: Err(TcmuError::OffsetOverflow) }
    } else {
        walk_from(mem, mb.cmd_tail, mb.cmd_head, cmdr_size, cmdr_off, 0)
    }
}

/// Handles the entry at `off`, and returns its length.
///
/// Of a command that was carried out only the status is written into the entry. Of one that was
/// refused the sense data are, too.
pub fn do_entry(storage: &mut [u8], base: &mut [u8], off: usize) -> (r: Result<u32, TcmuError>)
    ensures
        final(base)@ == entry_at(old(base)@, off as int).mem,
        r == entry_at(old(base)@, off as int).len,
        final(storage)@ == old(storage)@,
{
    let mut ent: CmdEntry = match CmdEntry::load(base, off) {
        Ok(ent) => ent,
        Err(e) => {
            return Err(e);
        },
    };
    let op: u32 = tcmu_hdr_get_op(ent.len_op);
    let len: u32 = tcmu_hdr_get_len(ent.len_op);
    if op == TCMU_OP_CMD {
        let cdb: [u8; 16] = match load_cdb(base, ent.cdb_off) {
            Ok(cdb) => cdb,
            Err(e) => {
                return Err(e);
            },
        };
        proof {
            if command_reply(cdb@) is Data {
                lemma_data_in_frame(
                    base@,
                    off as int,
                    ent.iov_cnt as nat,
                    command_reply(cdb@)->Data_0,
                );
            }
        }
        assert(base.len() == base@.len());
        match handle_command(storage, &cdb, &mut ent, base) {
            Ok(status) => {
                if status == NO_SENSE {
                    base[off + ENTRY_SCSI_STATUS] = status;
                } else {
                    ent.scsi_status = status;
                    ent.store_sense(base);
                }
                Ok(len)
            },
            Err(e) => Err(e),
        }
    } else if op == TCMU_OP_PAD {
        Ok(len)
    } else {
        Err(TcmuError::UnknownOp(op))
    }
}

/// Handles the entries from the tail of the ring to its head, moves the tail there, and returns
/// how many they were. A fault leaves the tail where it was.
///
/// A ring whose entries never lead to the head is handled over and over, until their number can
/// no longer be counted.
pub fn do_cmd(
    storage: &mut [u8],
    base: &mut [u8],
    mb: &mut Mailbox,
    cmdr_size: u32,
    cmdr_off: u32,
) -> (r: Result<usize, TcmuError>)
    ensures
        final(storage)@ == old(storage)@,
        final(base)@.len() == old(base)@.len(),
        r is Ok ==> final(mb).cmd_tail == old(mb).cmd_head,
        ({
            let walked = walk(old(base)@, *old(mb), cmdr_size, cmdr_off);
            &&& final(base)@ == walked.mem
            &&& final(mb).cmd_head == old(mb).cmd_head
            &&& match walked.end {
                Ok((n, tail)) => {
                    &&& n <= usize::MAX
                    &&& r == Ok::<usize, TcmuError>(n as usize)
                    &&& final(mb).cmd_tail == tail
                },
                Err(e) => {
                    &&& r == Err::<usize, TcmuError>(e)
                    &&& final(mb).cmd_tail == old(mb).cmd_tail
                },
            }
        }),
{
    proof {
        lemma_walk_ends_at_head(base@, *mb, cmdr_size, cmdr_off);
    }
    let cmd_head: u32 = mb.cmd_head;
    let mut cmd_tail: u32 = mb.cmd_tail;
    if cmd_head > u32::MAX - cmdr_off || cmd_tail > u32::MAX - cmdr_off {
        return Err(TcmuError::OffsetOverflow);
    }
    let mut n_proceeded: usize = 0;
    let ghost walked = walk(base@, *mb, cmdr_size, cmdr_off);
    while cmd_tail != cmd_head
        invariant
            cmdr_off + cmd_tail <= u32::MAX,
            walked == walk_from(
                base@,
                cmd_tail,
                cmd_head,
                cmdr_size,
                cmdr_off,
                n_proceeded as nat,
            ),
            walked == walk(old(base)@, *old(mb), cmdr_size, cmdr_off),
            walked.mem.len() == old(base)@.len(),
            *mb == *old(mb),
            storage@ == old(storage)@,
        decreases usize::MAX - n_proceeded,
    {
        let len: u32 = match do_entry(storage, base, (cmdr_off + cmd_tail) as usize) {
            Ok(len) => len,
            Err(e) => {
                return Err(e);
            },
        };
        if len > u32::MAX - cmd_tail {
            return Err(TcmuError::OffsetOverflow);
        }
        if cmdr_size == 0 {
            return Err(TcmuError::EmptyRing);
        }
        cmd_tail = (cmd_tail + len) % cmdr_size;
        if cmd_tail > u32::MAX - cmdr_off {
            return Err(TcmuError::OffsetOverflow);
        }
        if n_proceeded == usize::MAX {
            return Err(TcmuError::TooManyEntries);
        }
        n_proceeded += 1;
    }
    mb.cmd_tail = cmd_tail;
    Ok(n_proceeded)
}

/// The offsets of the bytes of the buffers of the entry at `off`.
pub open spec fn buffers_at(mem: Seq<u8>, off: int) -> Seq<int> {
    offsets_from(iov_table(mem, off, le32(mem, off + ENTRY_IOV_CNT) as nat), 0, 0)
}

/// Whether the entry at `off` is a command that is answered `reply`.
pub open spec fn is_command(mem: Seq<u8>, off: int, reply: Reply) -> bool {
    &&& 0 <= off
    &&& off + ENTRY_SIZE <= mem.len()
    &&& hdr_op(le32(mem, off)) == TCMU_OP_CMD
    &&& match cdb_at(mem, le64(mem, off + ENTRY_CDB_OFF)) {
        Ok(cdb) => command_reply(cdb) == reply,
        Err(_) => false,
    }
}

/// Handling an entry keeps the size of the region, and changes no byte but those of the entry's
/// reply and of its buffers.
pub proof fn lemma_entry_frame(mem: Seq<u8>, off: int)
    requires
        0 <= off,
    ensures
        entry_at(mem, off).mem.len() == mem.len(),
        forall|i: int|
            0 <= i < mem.len() && i != off + ENTRY_SCSI_STATUS && !(off + ENTRY_SENSE_BUFFER <= i
                < off + ENTRY_SIZE) && !buffers_at(mem, off).contains(i) ==> entry_at(
                mem,
                off,
            ).mem[i] == mem[i],
{
    if off + ENTRY_SIZE <= mem.len() && hdr_op(le32(mem, off)) == TCMU_OP_CMD {
        let cdb = cdb_at(mem, le64(mem, off + ENTRY_CDB_OFF));
        if cdb is Ok && command_reply(cdb->Ok_0) is Data {
            let cnt = le32(mem, off + ENTRY_IOV_CNT) as nat;
            let data = command_reply(cdb->Ok_0)->Data_0;
            let touched = data_offsets(mem, off, cnt, data.len());
            lemma_data_in_frame(mem, off, cnt, data);
            assert forall|i: int| !buffers_at(mem, off).contains(i) implies !touched.contains(
                i,
            ) by {
                if touched.contains(i) {
                    let k = touched.index_of(i);
                    assert(buffers_at(mem, off)[k] == i);
                }
            }
        }
    }
}

/// An entry that cannot be handled changes nothing.
pub proof fn lemma_fault_changes_nothing(mem: Seq<u8>, off: int)
    requires
        entry_at(mem, off).len is Err,
    ensures
        entry_at(mem, off).mem == mem,
{
}

/// Padding is passed over.
pub proof fn lemma_padding_changes_nothing(mem: Seq<u8>, off: int)
    requires
        0 <= off,
        off + 112 <= mem.len(),
        hdr_op(le32(mem, off)) == 0,
    ensures
        entry_at(mem, off).mem == mem,
        entry_at(mem, off).len == Ok::<u32, TcmuError>(hdr_len(le32(mem, off)) as u32),
{
}

/// A command that is refused is answered status 2, CHECK CONDITION, with sense data in fixed
/// format that say illegal request and no more. Nothing else changes, and the handler goes on
/// behind the entry.
pub proof fn lemma_refused_command(mem: Seq<u8>, off: int)
    requires
        is_command(mem, off, Reply::Refused),
    ensures
        ({
            let after = entry_at(mem, off).mem;
            let sense = off + 16;
            &&& entry_at(mem, off).len == Ok::<u32, TcmuError>(hdr_len(le32(mem, off)) as u32)
            &&& after.len() == mem.len()
            &&& after[off + 8] == 2
            &&& after[sense] == 0x70
            &&& after[sense + 2] == 5
            &&& after[sense + 7] == 0xa
            &&& after[sense + 12] == 0x24
            &&& forall|i: int|
                sense <= i < sense + 96 && i != sense && i != sense + 2 && i != sense + 7 && i
                    != sense + 12 ==> after[i] == 0
            &&& forall|i: int|
                0 <= i < mem.len() && i != off + 8 && !(sense <= i < sense + 96) ==> after[i]
                    == mem[i]
        }),
{
    let after = entry_at(mem, off).mem;
    assert(after =~= with_sense(mem, off, CHECK_CONDITION, refusal_sense()));
}

/// A command that is carried out without data gets status 0, and nothing else changes. The handler
/// goes on behind the entry.
pub proof fn lemma_done_command(mem: Seq<u8>, off: int)
    requires
        is_command(mem, off, Reply::Done),
    ensures
        entry_at(mem, off).len == Ok::<u32, TcmuError>(hdr_len(le32(mem, off)) as u32),
        entry_at(mem, off).mem == mem.update(off + 8, 0u8),
{
}

/// A command that is answered with data gets status 0. Nothing else changes but the bytes of its
/// buffers that the data go to. The handler goes on behind the entry.
pub proof fn lemma_data_command(mem: Seq<u8>, off: int, data: Seq<u8>)
    requires
        is_command(mem, off, Reply::Data(data)),
        data_in(mem, off, le32(mem, off + ENTRY_IOV_CNT) as nat, data) is Ok,
    ensures
        ({
            let after = entry_at(mem, off).mem;
            let cnt = le32(mem, off + 8) as nat;
            &&& entry_at(mem, off).len == Ok::<u32, TcmuError>(hdr_len(le32(mem, off)) as u32)
            &&& after.len() == mem.len()
            &&& after[off + 8] == 0
            &&& forall|i: int|
                0 <= i < mem.len() && i != off + 8 && !data_offsets(
                    mem,
                    off,
                    cnt,
                    data.len(),
                ).contains(i) ==> after[i] == mem[i]
        }),
{
    lemma_data_in_frame(mem, off, le32(mem, off + ENTRY_IOV_CNT) as nat, data);
}

proof fn lemma_status_beside_data(mem: Seq<u8>, off: int, offsets: Seq<int>)
    requires
        !offsets.contains(off + ENTRY_SCSI_STATUS),
        0 <= off + ENTRY_SCSI_STATUS < mem.len(),
        inside(offsets, mem.len()),
    ensures
        gather(with_status(mem, off, NO_SENSE), offsets) == gather(mem, offsets),
{
    assert forall|k: int| 0 <= k < offsets.len() implies #[trigger] offsets[k] != off
        + ENTRY_SCSI_STATUS by {}
    assert(gather(with_status(mem, off, NO_SENSE), offsets) =~= gather(mem, offsets));
}

/// The initiator finds the data of a command in its buffers, as far as there is room, where no
/// two bytes of the data go to the same place and none goes to that of the status.
pub proof fn lemma_data_arrive(mem: Seq<u8>, off: int, data: Seq<u8>)
    requires
        is_command(mem, off, Reply::Data(data)),
        ({
            let cnt = le32(mem, off + ENTRY_IOV_CNT) as nat;
            let touched = data_offsets(mem, off, cnt, data.len());
            &&& data_in(mem, off, cnt, data) is Ok
            &&& touched.no_duplicates()
            &&& !touched.contains(off + ENTRY_SCSI_STATUS)
        }),
    ensures
        ({
            let cnt = le32(mem, off + ENTRY_IOV_CNT) as nat;
            let touched = data_offsets(mem, off, cnt, data.len());
            gather(entry_at(mem, off).mem, touched) == data.take(touched.len() as int)
        }),
{
    let cnt = le32(mem, off + ENTRY_IOV_CNT) as nat;
    let touched = data_offsets(mem, off, cnt, data.len());
    let sent = data.take(touched.len() as int);
    let filled = scatter(mem, touched, sent);
    let after = entry_at(mem, off).mem;
    assert(after == with_status(filled, off, NO_SENSE));
    lemma_scatter_frame(mem, touched, sent);
    lemma_status_beside_data(filled, off, touched);
    lemma_read_back(mem, touched, sent);
}

/// Where the tail meets the head there is nothing to handle.
pub proof fn lemma_empty_ring(mem: Seq<u8>, mb: Mailbox, cmdr_size: u32, cmdr_off: u32)
    requires
        mb.cmd_tail == mb.cmd_head,
        cmdr_off + mb.cmd_head <= u32::MAX,
    ensures
        walk(mem, mb, cmdr_size, cmdr_off).mem == mem,
        walk(mem, mb, cmdr_size, cmdr_off).end == Ok::<(nat, u32), TcmuError>((0, mb.cmd_head)),
{
}

/// Handling the ring keeps the size of the region, and if it comes to an end, then at the head.
pub proof fn lemma_walk_ends_at_head(
    mem: Seq<u8>,
    mb: Mailbox,
    cmdr_size: u32,
    cmdr_off: u32,
)
    ensures
        walk(mem, mb, cmdr_size, cmdr_off).mem.len() == mem.len(),
        match walk(mem, mb, cmdr_size, cmdr_off).end {
            Ok((n, tail)) => tail == mb.cmd_head && (n == 0 <==> mb.cmd_tail == mb.cmd_head),
            Err(_) => true,
        },
{
    if cmdr_off + mb.cmd_head <= u32::MAX && cmdr_off + mb.cmd_tail <= u32::MAX {
        lemma_walk_from_ends_at_head(mem, mb.cmd_tail, mb.cmd_head, cmdr_size, cmdr_off, 0);
    }
}

proof fn lemma_walk_from_ends_at_head(
    mem: Seq<u8>,
    tail: u32,
    head: u32,
    cmdr_size: u32,
    cmdr_off: u32,
    n: nat,
)
    ensures
        walk_from(mem, tail, head, cmdr_size, cmdr_off, n).mem.len() == mem.len(),
        match walk_from(mem, tail, head, cmdr_size, cmdr_off, n).end {
            Ok((m, end)) => end == head && m >= n && (m == n <==> tail == head),
            Err(_) => true,
        },
    decreases usize::MAX - n,
{
    if tail != head {
        let handled = entry_at(mem, cmdr_off + tail);
        lemma_entry_frame(mem, cmdr_off + tail);
        if handled.len is Ok && n < usize::MAX {
            let next = tail_after(tail, handled.len->Ok_0, cmdr_size, cmdr_off);
            if next is Ok {
                lemma_walk_from_ends_at_head(
                    handled.mem,
                    next->Ok_0,
                    head,
                    cmdr_size,
                    cmdr_off,
                    n + 1,
                );
            }
        }
    }
}

/// A ring that holds one entry: that entry is handled, and the tail moves to the head.
pub proof fn lemma_one_entry(mem: Seq<u8>, mb: Mailbox, cmdr_size: u32, cmdr_off: u32)
    requires
        mb.cmd_tail != mb.cmd_head,
        cmdr_off + mb.cmd_head <= u32::MAX,
        cmdr_off + mb.cmd_tail <= u32::MAX,
        match entry_at(mem, cmdr_off + mb.cmd_tail).len {
            Ok(len) => tail_after(mb.cmd_tail, len, cmdr_size, cmdr_off) == Ok::<u32, TcmuError>(
                mb.cmd_head,
            ),
            Err(_) => false,
        },
    ensures
        walk(mem, mb, cmdr_size, cmdr_off).mem == entry_at(mem, cmdr_off + mb.cmd_tail).mem,
        walk(mem, mb, cmdr_size, cmdr_off).end == Ok::<(nat, u32), TcmuError>((1, mb.cmd_head)),
{
    reveal_with_fuel(walk_from, 2);
}

/// Whether handling the entry at the tail `tails[k]` in the region `mems[k]` succeeds and leads to
/// the tail and the region that come next.
pub open spec fn linked(
    mems: Seq<Seq<u8>>,
    tails: Seq<u32>,
    cmdr_size: u32,
    cmdr_off: u32,
    k: int,
) -> bool {
    let handled = entry_at(mems[k], cmdr_off + tails[k]);
    match handled.len {
        Ok(len) => {
            &&& handled.mem == mems[k + 1]
            &&& tail_after(tails[k], len, cmdr_size, cmdr_off) == Ok::<u32, TcmuError>(
                tails[k + 1],
            )
        },
        Err(_) => false,
    }
}

/// Whether the entries at the tails, handled one after the other, lead to the head, and none but
/// the last of them does.
pub open spec fn is_chain(
    mems: Seq<Seq<u8>>,
    tails: Seq<u32>,
    head: u32,
    cmdr_size: u32,
    cmdr_off: u32,
) -> bool {
    &&& mems.len() == tails.len()
    &&& 0 < tails.len() <= usize::MAX + 1
    &&& tails.last() == head
    &&& forall|k: int| 0 <= k < tails.len() - 1 ==> #[trigger] tails[k] != head
    &&& forall|k: int|
        0 <= k < tails.len() - 1 ==> #[trigger] linked(mems, tails, cmdr_size, cmdr_off, k)
}

/// Entries that lead from the tail to the head are all handled, each once and in their order.
pub proof fn lemma_chain_is_walked(
    mems: Seq<Seq<u8>>,
    tails: Seq<u32>,
    head: u32,
    cmdr_size: u32,
    cmdr_off: u32,
)
    requires
        is_chain(mems, tails, head, cmdr_size, cmdr_off),
        cmdr_off + head <= u32::MAX,
        cmdr_off + tails[0] <= u32::MAX,
    ensures
        ({
            let mb = Mailbox { cmd_head: head, cmd_tail: tails[0] };
            let walked = walk(mems[0], mb, cmdr_size, cmdr_off);
            &&& walked.mem == mems.last()
            &&& walked.end == Ok::<(nat, u32), TcmuError>(((tails.len() - 1) as nat, head))
        }),
{
    lemma_chain_is_walked_from(mems, tails, head, cmdr_size, cmdr_off, 0);
}

proof fn lemma_chain_is_walked_from(
    mems: Seq<Seq<u8>>,
    tails: Seq<u32>,
    head: u32,
    cmdr_size: u32,
    cmdr_off: u32,
    k: nat,
)
    requires
        is_chain(mems, tails, head, cmdr_size, cmdr_off),
        k < tails.len(),
    ensures
        ({
            let walked = walk_from(mems[k as int], tails[k as int], head, cmdr_size, cmdr_off, k);
            &&& walked.mem == mems.last()
            &&& walked.end == Ok::<(nat, u32), TcmuError>(((tails.len() - 1) as nat, head))
        }),
    decreases tails.len() - k,
{
    if k < tails.len() - 1 {
        assert(linked(mems, tails, cmdr_size, cmdr_off, k as int));
        lemma_chain_is_walked_from(mems, tails, head, cmdr_size, cmdr_off, k + 1);
    }
}

/// Where handling the ring comes to an end, there are entries that lead from the tail to the
/// head.
pub proof fn lemma_walk_is_a_chain(mem: Seq<u8>, mb: Mailbox, cmdr_size: u32, cmdr_off: u32)
    requires
        walk(mem, mb, cmdr_size, cmdr_off).end is Ok,
    ensures
        exists|mems: Seq<Seq<u8>>, tails: Seq<u32>|
            #![trigger is_chain(mems, tails, mb.cmd_head, cmdr_size, cmdr_off)]
            {
                &&& is_chain(mems, tails, mb.cmd_head, cmdr_size, cmdr_off)
                &&& mems[0] == mem
                &&& tails[0] == mb.cmd_tail
            },
{
    let (mems, tails) = lemma_walk_from_is_a_chain(
        mem,
        mb.cmd_tail,
        mb.cmd_head,
        cmdr_size,
        cmdr_off,
        0,
    );
    assert(is_chain(mems, tails, mb.cmd_head, cmdr_size, cmdr_off));
}

proof fn lemma_walk_from_is_a_chain(
    mem: Seq<u8>,
    tail: u32,
    head: u32,
    cmdr_size: u32,
    cmdr_off: u32,
    n: nat,
) -> (r: (Seq<Seq<u8>>, Seq<u32>))
    requires
        n <= usize::MAX,
        walk_from(mem, tail, head, cmdr_size, cmdr_off, n).end is Ok,
    ensures
        is_chain(r.0, r.1, head, cmdr_size, cmdr_off),
        r.1.len() + n <= usize::MAX + 1,
        r.0[0] == mem,
        r.1[0] == tail,
    decreases usize::MAX - n,
{
    if tail == head {
        (seq![mem], seq![tail])
    } else {
        let handled = entry_at(mem, cmdr_off + tail);
        let next = tail_after(tail, handled.len->Ok_0, cmdr_size, cmdr_off)->Ok_0;
        let (mems, tails) = lemma_walk_from_is_a_chain(
            handled.mem,
            next,
            head,
            cmdr_size,
            cmdr_off,
            n + 1,
        );
        let all_mems = seq![mem] + mems;
        let all_tails = seq![tail] + tails;
        assert forall|k: int| 0 <= k < all_tails.len() - 1 implies #[trigger] linked(
            all_mems,
            all_tails,
            cmdr_size,
            cmdr_off,
            k,
        ) by {
            if k > 0 {
                assert(linked(mems, tails, cmdr_size, cmdr_off, k - 1));
            }
        }
        assert forall|k: int| 0 <= k < all_tails.len() - 1 implies #[trigger] all_tails[k]
            != head by {
            if k > 0 {
                assert(tails[k - 1] != head);
            }
        }
        (all_mems, all_tails)
    }
}

/// Whether handling the ring from `tail` to `head` passes over `at` before it comes to `head`.
pub open spec fn passes(
    mem: Seq<u8>,
    tail: u32,
    head: u32,
    cmdr_size: u32,
    cmdr_off: u32,
    n: nat,
    at: u32,
) -> bool
    decreases usize::MAX - n,
{
    tail != head && (tail == at || {
        let handled = entry_at(mem, cmdr_off + tail);
        match handled.len {
            Err(_) => false,
            Ok(len) => match tail_after(tail, len, cmdr_size, cmdr_off) {
                Err(_) => false,
                Ok(next) => n < usize::MAX && passes(
                    handled.mem,
                    next,
                    head,
                    cmdr_size,
                    cmdr_off,
                    n + 1,
                    at,
                ),
            },
        }
    })
}

/// To handle the ring up to one head and then, in a second go, on to another, is to handle it in
/// one go up to the second, unless the first go already passed over that.
pub proof fn lemma_two_goes(
    mem: Seq<u8>,
    tail: u32,
    head1: u32,
    head2: u32,
    cmdr_size: u32,
    cmdr_off: u32,
)
    requires
        ({
            let go1 = walk(mem, Mailbox { cmd_head: head1, cmd_tail: tail }, cmdr_size, cmdr_off);
            let go2 = walk(
                go1.mem,
                Mailbox { cmd_head: head2, cmd_tail: head1 },
                cmdr_size,
                cmdr_off,
            );
            &&& go1.end is Ok
            &&& go2.end is Ok
            &&& go1.end->Ok_0.0 + go2.end->Ok_0.0 <= usize::MAX
            &&& !passes(mem, tail, head1, cmdr_size, cmdr_off, 0, head2)
        }),
    ensures
        ({
            let go1 = walk(mem, Mailbox { cmd_head: head1, cmd_tail: tail }, cmdr_size, cmdr_off);
            let go2 = walk(
                go1.mem,
                Mailbox { cmd_head: head2, cmd_tail: head1 },
                cmdr_size,
                cmdr_off,
            );
            let go = walk(mem, Mailbox { cmd_head: head2, cmd_tail: tail }, cmdr_size, cmdr_off);
            &&& go.mem == go2.mem
            &&& go.end == Ok::<(nat, u32), TcmuError>(
                (go1.end->Ok_0.0 + go2.end->Ok_0.0, head2),
            )
        }),
{
    let go1 = walk_from(mem, tail, head1, cmdr_size, cmdr_off, 0);
    lemma_walk_from_ends_at_head(mem, tail, head1, cmdr_size, cmdr_off, 0);
    lemma_walk_from_ends_at_head(go1.mem, head1, head2, cmdr_size, cmdr_off, 0);
    lemma_walk_on(mem, tail, head1, head2, cmdr_size, cmdr_off, 0);
    lemma_walk_shift(go1.mem, head1, head2, cmdr_size, cmdr_off, 0, go1.end->Ok_0.0);
}

proof fn lemma_walk_on(
    mem: Seq<u8>,
    tail: u32,
    head1: u32,
    head2: u32,
    cmdr_size: u32,
    cmdr_off: u32,
    n: nat,
)
    requires
        walk_from(mem, tail, head1, cmdr_size, cmdr_off, n).end is Ok,
        !passes(mem, tail, head1, cmdr_size, cmdr_off, n, head2),
    ensures
        ({
            let go1 = walk_from(mem, tail, head1, cmdr_size, cmdr_off, n);
            walk_from(mem, tail, head2, cmdr_size, cmdr_off, n) == walk_from(
                go1.mem,
                head1,
                head2,
                cmdr_size,
                cmdr_off,
                go1.end->Ok_0.0,
            )
        }),
    decreases usize::MAX - n,
{
    if tail != head1 {
        let handled = entry_at(mem, cmdr_off + tail);
        let next = tail_after(tail, handled.len->Ok_0, cmdr_size, cmdr_off)->Ok_0;
        lemma_walk_on(handled.mem, next, head1, head2, cmdr_size, cmdr_off, n + 1);
    }
}

proof fn lemma_walk_shift(
    mem: Seq<u8>,
    tail: u32,
    head: u32,
    cmdr_size: u32,
    cmdr_off: u32,
    n: nat,
    k: nat,
)
    requires
        walk_from(mem, tail, head, cmdr_size, cmdr_off, n).end is Ok,
        walk_from(mem, tail, head, cmdr_size, cmdr_off, n).end->Ok_0.0 + k <= usize::MAX,
    ensures
        ({
            let go = walk_from(mem, tail, head, cmdr_size, cmdr_off, n);
            let shifted = walk_from(mem, tail, head, cmdr_size, cmdr_off, n + k);
            &&& shifted.mem == go.mem
            &&& shifted.end == Ok::<(nat, u32), TcmuError>((go.end->Ok_0.0 + k, go.end->Ok_0.1))
        }),
    decreases usize::MAX - n,
{
    if tail != head {
        let handled = entry_at(mem, cmdr_off + tail);
        let next = tail_after(tail, handled.len->Ok_0, cmdr_size, cmdr_off)->Ok_0;
        lemma_walk_from_ends_at_head(handled.mem, next, head, cmdr_size, cmdr_off, n + 1);
        lemma_walk_shift(handled.mem, next, head, cmdr_size, cmdr_off, n + 1, k);
    }
}

/// The op code of an entry is in its first byte.
proof fn lemma_op_in_first_byte(mem: Seq<u8>, off: int)
    ensures
        hdr_op(le32(mem, off)) == mem[off] % 8,
        0 <= le32(mem, off) <= 0xffff_ffff,
{
    lemma_le32_bytes(mem, off);
}

/// The handler steps over an entry by the length in its first word, which is all of the word but
/// the three lowest bits, whatever the entry is and however it is answered. Only padding, with 0
/// in those bits, and commands, with 1, are stepped over.
pub proof fn lemma_entry_length(mem: Seq<u8>, off: int)
    ensures
        entry_at(mem, off).len matches Ok(len) ==> {
            &&& len == le32(mem, off) - mem[off] % 8
            &&& len % 8 == 0
            &&& mem[off] % 8 == 0 || mem[off] % 8 == 1
        },
{
    lemma_op_in_first_byte(mem, off);
}

/// Of every command that is handled, be it done, answered with data or refused, the length is
/// that in its header.
pub proof fn lemma_command_length(mem: Seq<u8>, off: int, reply: Reply)
    requires
        is_command(mem, off, reply),
    ensures
        entry_at(mem, off).len is Ok ==> entry_at(mem, off).len == Ok::<u32, TcmuError>(
            hdr_len(le32(mem, off)) as u32,
        ),
        reply is Done || reply is Refused ==> entry_at(mem, off).len is Ok,
        reply matches Reply::Fault(e) ==> entry_at(mem, off).len == Err::<u32, TcmuError>(e),
        reply matches Reply::Data(data) ==> {
            let m = data_in(mem, off, le32(mem, off + 8) as nat, data);
            &&& m is Ok ==> entry_at(mem, off).len is Ok
            &&& m matches Err(e) ==> entry_at(mem, off).len == Err::<u32, TcmuError>(e)
        },
{
}

/// The handler stops at an entry of which not all 112 bytes lie inside the region, at one that is
/// neither padding nor a command, and at a command whose block cannot be loaded.
pub proof fn lemma_entry_faults(mem: Seq<u8>, off: int)
    requires
        0 <= off,
    ensures
        off + 112 > mem.len() ==> entry_at(mem, off).len == Err::<u32, TcmuError>(
            TcmuError::OutOfBounds,
        ),
        off + 112 <= mem.len() && mem[off] % 8 > 1 ==> entry_at(mem, off).len == Err::<
            u32,
            TcmuError,
        >(TcmuError::UnknownOp((mem[off] % 8) as u32)),
        off + 112 <= mem.len() && mem[off] % 8 == 1 ==> {
            match cdb_at(mem, le64(mem, off + 24)) {
                Err(e) => entry_at(mem, off).len == Err::<u32, TcmuError>(e),
                Ok(cdb) => is_command(mem, off, command_reply(cdb)),
            }
        },
{
    lemma_op_in_first_byte(mem, off);
}

/// The data of a command with one buffer are in the buffer afterwards, as many bytes as there are
/// data and room, from the start that the table gives. But for them and the status, which comes
/// last, the region stays as it was.
pub proof fn lemma_data_command_with_one_buffer(mem: Seq<u8>, off: int, data: Seq<u8>)
    requires
        is_command(mem, off, Reply::Data(data)),
        le32(mem, off + 8) == 1,
        ({
            let n = least(data.len(), le64(mem, off + 56) as nat);
            n > 0 ==> le64(mem, off + 48) + n <= mem.len()
        }),
    ensures
        entry_at(mem, off).len is Ok,
        entry_at(mem, off).mem.len() == mem.len(),
        forall|i: int|
            0 <= i < mem.len() ==> #[trigger] entry_at(mem, off).mem[i] == (if i == off + 8 {
                0
            } else if 0 <= i - le64(mem, off + 48) < data.len() && i - le64(mem, off + 48) < le64(
                mem,
                off + 56,
            ) {
                data[i - le64(mem, off + 48)]
            } else {
                mem[i]
            }),
{
    lemma_data_in_one_buffer(mem, off, data);
    let filled = data_in(mem, off, 1, data)->Ok_0;
    assert(entry_at(mem, off).mem == filled.update(off + 8, 0u8));
}

/// A read or a write whose table of buffers lies inside the region gets status 0 and moves no
/// data, if its bytes can be numbered in 64 bits, as those of the short form always can.
pub proof fn lemma_read_write_command(mem: Seq<u8>, off: int, cdb: Seq<u8>)
    requires
        is_command(mem, off, command_reply(cdb)),
        cdb_at(mem, le64(mem, off + 24)) == Ok::<Seq<u8>, TcmuError>(cdb),
        off + 48 + 16 * le32(mem, off + 8) <= mem.len(),
        cdb[0] == 0x28 || cdb[0] == 0x2a || (cdb[0] == 0x88 || cdb[0] == 0x8a) && 4096 * (be64(
            cdb,
            2,
        ) + be32(cdb, 10)) <= 0xffff_ffff_ffff_ffff,
    ensures
        entry_at(mem, off).len == Ok::<u32, TcmuError>(hdr_len(le32(mem, off)) as u32),
        entry_at(mem, off).mem == mem.update(off + 8, 0u8),
{
    lemma_read_write(cdb);
    lemma_op_in_first_byte(mem, off + 8);
    lemma_no_data(mem, off, le32(mem, off + 8) as nat);
}

/// The tail moves on by the length of the entry, round the ring: it stays below the size of the
/// ring, and differs from the sum by whole rounds. It only cannot where the sum does not fit in 32
/// bits, where there is no ring, or where the place in the region does not fit in 32 bits.
pub proof fn lemma_tail_moves(tail: u32, len: u32, cmdr_size: u32, cmdr_off: u32)
    ensures
        match tail_after(tail, len, cmdr_size, cmdr_off) {
            Ok(next) => {
                &&& next < cmdr_size
                &&& (tail + len - next) % (cmdr_size as int) == 0
                &&& tail + len < cmdr_size ==> next == tail + len
                &&& tail + len == cmdr_size ==> next == 0
                &&& cmdr_off + next <= 0xffff_ffff
            },
            Err(e) => {
                &&& e == TcmuError::EmptyRing || e == TcmuError::OffsetOverflow
                &&& e == TcmuError::EmptyRing <==> cmdr_size == 0 && tail + len <= 0xffff_ffff
                &&& e == TcmuError::OffsetOverflow ==> tail + len > 0xffff_ffff || cmdr_off
                    + cmdr_size > 0xffff_ffff
            },
        },
{
    if cmdr_size > 0 {
        let sum = tail + len;
        let size = cmdr_size as int;
        lemma_mod_bound(sum, size);
        lemma_fundamental_div_mod(sum, size);
        lemma_mod_multiples_basic(sum / size, size);
        lemma_mul_is_commutative(size, sum / size);
        assert(sum - sum % size == (sum / size) * size);
        if sum < size {
            lemma_small_mod(sum as nat, size as nat);
        }
        if sum == size {
            lemma_mod_self_0(size);
        }
    }
}

/// The handler gets as far as the first entry that it cannot handle or cannot go on from. What was
/// handled before stays, and what was wrong with that entry is what was wrong. The same holds at
/// the entry at which the count no longer fits.
pub proof fn lemma_fault_ends_walk(
    mems: Seq<Seq<u8>>,
    tails: Seq<u32>,
    head: u32,
    cmdr_size: u32,
    cmdr_off: u32,
)
    requires
        mems.len() == tails.len(),
        0 < tails.len() <= usize::MAX + 1,
        cmdr_off + head <= u32::MAX,
        cmdr_off + tails[0] <= u32::MAX,
        forall|k: int| 0 <= k < tails.len() ==> #[trigger] tails[k] != head,
        forall|k: int|
            0 <= k < tails.len() - 1 ==> #[trigger] linked(mems, tails, cmdr_size, cmdr_off, k),
    ensures
        ({
            let mb = Mailbox { cmd_head: head, cmd_tail: tails[0] };
            let walked = walk(mems[0], mb, cmdr_size, cmdr_off);
            let last = entry_at(mems.last(), cmdr_off + tails.last());
            match last.len {
                Err(e) => walked.mem == mems.last() && walked.end == Err::<(nat, u32), TcmuError>(
                    e,
                ),
                Ok(len) => match tail_after(tails.last(), len, cmdr_size, cmdr_off) {
                    Err(e) => walked.mem == last.mem && walked.end == Err::<(nat, u32), TcmuError>(
                        e,
                    ),
                    Ok(_) => tails.len() == usize::MAX + 1 ==> walked.mem == last.mem
                        && walked.end == Err::<(nat, u32), TcmuError>(TcmuError::TooManyEntries),
                },
            }
        }),
{
    lemma_fault_ends_walk_from(mems, tails, head, cmdr_size, cmdr_off, 0);
}

proof fn lemma_fault_ends_walk_from(
    mems: Seq<Seq<u8>>,
    tails: Seq<u32>,
    head: u32,
    cmdr_size: u32,
    cmdr_off: u32,
    k: nat,
)
    requires
        mems.len() == tails.len(),
        k < tails.len() <= usize::MAX + 1,
        forall|k: int| 0 <= k < tails.len() ==> #[trigger] tails[k] != head,
        forall|k: int|
            0 <= k < tails.len() - 1 ==> #[trigger] linked(mems, tails, cmdr_size, cmdr_off, k),
    ensures
        walk_from(mems[k as int], tails[k as int], head, cmdr_size, cmdr_off, k) == walk_from(
            mems.last(),
            tails.last(),
            head,
            cmdr_size,
            cmdr_off,
            (tails.len() - 1) as nat,
        ),
    decreases tails.len() - k,
{
    if k < tails.len() - 1 {
        assert(linked(mems, tails, cmdr_size, cmdr_off, k as int));
        assert(tails[k as int] != head);
        lemma_fault_ends_walk_from(mems, tails, head, cmdr_size, cmdr_off, k + 1);
    }
}

/// A ring that begins or ends where 32 bits no longer reach is not handled at all.
pub proof fn lemma_ring_out_of_reach(mem: Seq<u8>, mb: Mailbox, cmdr_size: u32, cmdr_off: u32)
    requires
        cmdr_off + mb.cmd_head > 0xffff_ffff || cmdr_off + mb.cmd_tail > 0xffff_ffff,
    ensures
        walk(mem, mb, cmdr_size, cmdr_off).mem == mem,
        walk(mem, mb, cmdr_size, cmdr_off).end == Err::<(nat, u32), TcmuError>(
            TcmuError::OffsetOverflow,
        ),
{
}

} // verus!
