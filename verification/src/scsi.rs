//! The SCSI commands of the device: what each is answered.
use crate::bytes::{get_be16, get_be32, get_be64, push_be32, push_be64};
#[allow(unused_imports)]
use crate::bytes::{
    be16, be32, be32_bytes, be64, be64_bytes, lemma_be32_round_trip, lemma_be64_round_trip,
};
use crate::data_buffer::DataBuffer;
#[allow(unused_imports)]
use crate::data_buffer::{inside, least, lemma_scatter_frame, offsets_from, scatter};
use crate::error::TcmuError;
use crate::tcmu::CmdEntry;
#[allow(unused_imports)]
use crate::tcmu::{iov_table, iov_table_fits};
use vstd::prelude::*;

verus! {

/// SCSI status of a command that was refused: the sense data say why.
pub const CHECK_CONDITION: u8 = 2;

/// SCSI status of a command that was carried out.
pub const NO_SENSE: u8 = 0;

pub const READ_10: u8 = 0x28;

pub const WRITE_10: u8 = 0x2a;

pub const READ_16: u8 = 0x88;

pub const WRITE_16: u8 = 0x8a;

pub const INQUIRY: u8 = 0x12;

pub const TEST_UNIT_READY: u8 = 0x00;

pub const MODE_SENSE_6: u8 = 0x1a;

pub const READ_CAPACITY_10: u8 = 0x25;

pub const SERVICE_ACTION_IN_16: u8 = 0x9e;

pub const REPORT_OPERATION: u8 = 0xa3;

pub const SYNCHRONIZE_CACHE_10: u8 = 0x35;

/// The address of the last block of the device.
pub const LBA: u64 = 0xffff_ffff_ffff_fffe;

/// The size of a block. Initiators take 512, 1024, 2048 and 4096.
pub const BLOCK_SIZE: u64 = 4096;

/// What a command is answered.
pub enum Reply {
    /// It is carried out, and its buffers are not looked at.
    Done,
    /// It is carried out, and these bytes go into its buffers.
    Data(Seq<u8>),
    /// It is refused, with sense data.
    Refused,
    /// It cannot be handled.
    Fault(TcmuError),
}

/// The sense data of a refused command: fixed format, illegal request.
pub open spec fn refusal_sense() -> Seq<u8> {
    Seq::new(
        96,
        |i: int|
            if i == 0 {
                0x70u8
            } else if i == 2 {
                5
            } else if i == 7 {
                0xa
            } else if i == 12 {
                0x24
            } else {
                0
            },
    )
}

/// Sense data in fixed format that say nothing but a sense key.
pub open spec fn key_sense(sense_key: u8) -> Seq<u8> {
    Seq::new(
        96,
        |i: int|
            if i == 0 {
                0x70u8
            } else if i == 2 {
                sense_key
            } else {
                0
            },
    )
}

/// The offsets to which `size` bytes of data go in the `cnt` buffers of the entry at `off`.
pub open spec fn data_offsets(mem: Seq<u8>, off: int, cnt: nat, size: nat) -> Seq<int> {
    let offsets = offsets_from(iov_table(mem, off, cnt), 0, 0);
    offsets.take(least(size, offsets.len()) as int)
}

/// The region after `data` went into the `cnt` buffers of the entry at `off`, as far as there is
/// room.
pub open spec fn data_in(mem: Seq<u8>, off: int, cnt: nat, data: Seq<u8>) -> Result<
    Seq<u8>,
    TcmuError,
> {
    let touched = data_offsets(mem, off, cnt, data.len());
    if iov_table_fits(mem, off, cnt) && inside(touched, mem.len()) {
        Ok(scatter(mem, touched, data.take(touched.len() as int)))
    } else {
        Err(TcmuError::OutOfBounds)
    }
}

/// The data of a command change no byte but those of its buffers that they go to.
pub proof fn lemma_data_in_frame(mem: Seq<u8>, off: int, cnt: nat, data: Seq<u8>)
    ensures
        match data_in(mem, off, cnt, data) {
            Ok(m) => {
                &&& m.len() == mem.len()
                &&& forall|i: int|
                    0 <= i < mem.len() && !data_offsets(mem, off, cnt, data.len()).contains(i)
                        ==> m[i] == mem[i]
            },
            Err(_) => true,
        },
{
    let offsets = offsets_from(iov_table(mem, off, cnt), 0, 0);
    let n = least(data.len(), offsets.len());
    if data_in(mem, off, cnt, data) is Ok {
        lemma_scatter_frame(mem, offsets.take(n as int), data.take(n as int));
    }
}

/// Whether `r`, `ent1` and `mem1` are what a handler makes of the copy `ent0` of an entry and the
/// region `mem0` when the command is answered `reply`. A handler that fails changes nothing.
pub open spec fn answered(
    reply: Reply,
    ent0: CmdEntry,
    mem0: Seq<u8>,
    r: Result<u8, TcmuError>,
    ent1: CmdEntry,
    mem1: Seq<u8>,
) -> bool {
    match reply {
        Reply::Done => r == Ok::<u8, TcmuError>(NO_SENSE) && ent1 == ent0 && mem1 == mem0,
        Reply::Data(data) => {
            &&& ent1 == ent0
            &&& match data_in(mem0, ent0.off as int, ent0.iov_cnt as nat, data) {
                Ok(m) => r == Ok::<u8, TcmuError>(NO_SENSE) && mem1 == m,
                Err(e) => r == Err::<u8, TcmuError>(e) && mem1 == mem0,
            }
        },
        Reply::Refused => {
            &&& r == Ok::<u8, TcmuError>(CHECK_CONDITION)
            &&& ent1.is_with_sense(ent0, refusal_sense())
            &&& mem1 == mem0
        },
        Reply::Fault(e) => r == Err::<u8, TcmuError>(e) && ent1 == ent0 && mem1 == mem0,
    }
}

/// `text`, filled up with spaces to `size` characters.
pub open spec fn padded(text: Seq<u8>, size: int) -> Seq<u8> {
    text + Seq::new((size - text.len()) as nat, |i: int| 0x20u8)
}

/// The standard inquiry data: vendor "mem", product revision "0001".
pub open spec fn inquiry_data() -> Seq<u8> {
    seq![0u8, 0, 0x5, 2, 31, 0, 0, 2] + padded(seq![0x6du8, 0x65, 0x6d], 8) + padded(
        Seq::empty(),
        16,
    ) + seq![0x30u8, 0x30, 0x30, 0x31]
}

/// INQUIRY: the standard data, and no vital product data.
pub open spec fn inquiry_reply(cdb: Seq<u8>) -> Reply {
    if cdb[1] % 2 == 0 && cdb[2] == 0 {
        Reply::Data(inquiry_data())
    } else {
        Reply::Refused
    }
}

/// The header of mode parameters with `len` bytes of pages: a medium that can be written and a
/// device that takes DPO and FUA.
pub open spec fn mode_header(len: int) -> Seq<u8> {
    seq![(3 + len) as u8, 0, 0x10, 0]
}

/// The caching mode page: the write cache is on.
pub open spec fn caching_page() -> Seq<u8> {
    seq![0x8u8, 0x12, 0x4] + Seq::new(17, |i: int| 0u8)
}

/// MODE SENSE(6): the caching page, on its own or as all there are, or no page at all.
pub open spec fn mode_sense_6_reply(cdb: Seq<u8>) -> Reply {
    let page_code = cdb[2] % 64;
    if page_code == 0 {
        Reply::Data(mode_header(0))
    } else if page_code == 0x3f || page_code == 0x8 {
        Reply::Data(mode_header(20) + caching_page())
    } else {
        Reply::Refused
    }
}

/// READ CAPACITY(10): the last block if its address fits in 32 bits, else all ones.
pub open spec fn read_capacity_10_data() -> Seq<u8> {
    be32_bytes(
        if LBA > 0xffff_ffff {
            0xffff_ffff
        } else {
            LBA as u32
        },
    ) + be32_bytes(BLOCK_SIZE as u32)
}

/// READ CAPACITY(16): the last block, the size of a block, and that the last block is the last of
/// the whole device.
pub open spec fn read_capacity_16_data() -> Seq<u8> {
    be64_bytes(LBA) + be32_bytes(BLOCK_SIZE as u32) + seq![0x10u8] + Seq::new(31, |i: int| 0u8)
}

/// The operation codes that are reported as supported.
pub open spec fn reported(opcode: u8) -> bool {
    ||| opcode == INQUIRY
    ||| opcode == TEST_UNIT_READY
    ||| opcode == MODE_SENSE_6
    ||| opcode == READ_CAPACITY_10
    ||| opcode == REPORT_OPERATION
    ||| opcode == SERVICE_ACTION_IN_16
    ||| opcode == READ_10
    ||| opcode == WRITE_10
    ||| opcode == READ_16
    ||| opcode == WRITE_16
}

/// REPORT SUPPORTED OPERATION CODES: of one operation code, without usage data.
pub open spec fn report_supported_operation_codes_reply(cdb: Seq<u8>) -> Reply {
    if cdb[2] == 1 {
        Reply::Data(
            seq![
                0u8,
                if reported(cdb[3]) {
                    3u8
                } else {
                    1
                },
            ],
        )
    } else {
        Reply::Refused
    }
}

/// The maintenance commands: of these there is only the report of operation codes.
pub open spec fn report_reply(cdb: Seq<u8>) -> Reply {
    if cdb[1] % 32 == 0xc {
        report_supported_operation_codes_reply(cdb)
    } else {
        Reply::Refused
    }
}

/// SERVICE ACTION IN(16): of these there is only READ CAPACITY(16).
pub open spec fn service_action_16_reply(cdb: Seq<u8>) -> Reply {
    if cdb[1] % 32 == 0x10 {
        Reply::Data(read_capacity_16_data())
    } else {
        Reply::Refused
    }
}

/// Whether the operation code is one of a read or a write.
pub open spec fn is_read_write(opcode: u8) -> bool {
    opcode == READ_10 || opcode == WRITE_10 || opcode == READ_16 || opcode == WRITE_16
}

/// The first byte of a read or a write.
pub open spec fn transfer_begin(cdb: Seq<u8>) -> int {
    BLOCK_SIZE * if cdb[0] == READ_10 || cdb[0] == WRITE_10 {
        be32(cdb, 2)
    } else {
        be64(cdb, 2)
    }
}

/// The byte behind the last byte of a read or a write.
pub open spec fn transfer_end(cdb: Seq<u8>) -> int {
    transfer_begin(cdb) + BLOCK_SIZE * if cdb[0] == READ_10 || cdb[0] == WRITE_10 {
        be16(cdb, 7)
    } else {
        be32(cdb, 10)
    }
}

/// A read or a write: it is carried out without moving any data.
pub open spec fn read_write_1x_reply(cdb: Seq<u8>) -> Reply {
    if transfer_end(cdb) > u64::MAX {
        Reply::Fault(TcmuError::LbaOverflow)
    } else {
        Reply::Data(Seq::empty())
    }
}

/// The length of a command block whose operation code is in the given group: the three highest
/// bits of its first byte.
pub open spec fn cdb_len(group: u8) -> Option<int> {
    if group == 0 {
        Some(6)
    } else if group == 1 || group == 2 {
        Some(10)
    } else if group == 4 {
        Some(16)
    } else if group == 5 {
        Some(12)
    } else {
        None
    }
}

/// The command block at `off`, filled up with zeros to sixteen bytes.
pub open spec fn cdb_at(mem: Seq<u8>, off: int) -> Result<Seq<u8>, TcmuError> {
    if off >= mem.len() {
        Err(TcmuError::OutOfBounds)
    } else {
        match cdb_len(mem[off] / 32) {
            None => Err(TcmuError::UnknownCdbGroup(mem[off] / 32)),
            Some(len) => if off + len > mem.len() {
                Err(TcmuError::OutOfBounds)
            } else {
                Ok(
                    Seq::new(
                        16,
                        |i: int|
                            if i < len {
                                mem[off + i]
                            } else {
                                0
                            },
                    ),
                )
            },
        }
    }
}

/// What a command is answered, by its command block.
pub open spec fn command_reply(cdb: Seq<u8>) -> Reply {
    if cdb[0] == INQUIRY {
        inquiry_reply(cdb)
    } else if cdb[0] == TEST_UNIT_READY || cdb[0] == SYNCHRONIZE_CACHE_10 {
        Reply::Done
    } else if cdb[0] == MODE_SENSE_6 {
        mode_sense_6_reply(cdb)
    } else if cdb[0] == READ_CAPACITY_10 {
        Reply::Data(read_capacity_10_data())
    } else if cdb[0] == REPORT_OPERATION {
        report_reply(cdb)
    } else if is_read_write(cdb[0]) {
        read_write_1x_reply(cdb)
    } else if cdb[0] == SERVICE_ACTION_IN_16 {
        service_action_16_reply(cdb)
    } else {
        Reply::Refused
    }
}

/// An operation code is reported as supported if and only if there is a command with it that is
/// not refused, but for SYNCHRONIZE CACHE(10), which is carried out and not reported.
pub proof fn lemma_reported_operation_codes(opcode: u8)
    ensures
        reported(opcode) || opcode == SYNCHRONIZE_CACHE_10 <==> exists|cdb: Seq<u8>|
            cdb.len() == 16 && cdb[0] == opcode && !(#[trigger] command_reply(cdb) is Refused),
        !reported(SYNCHRONIZE_CACHE_10),
{
    if reported(opcode) || opcode == SYNCHRONIZE_CACHE_10 {
        let service_action: u8 = if opcode == REPORT_OPERATION {
            0xc
        } else if opcode == SERVICE_ACTION_IN_16 {
            0x10
        } else {
            0
        };
        let option: u8 = if opcode == REPORT_OPERATION {
            1
        } else {
            0
        };
        let cdb = seq![opcode, service_action, option, 0, 0, 0, 0, 0, 0, 0, 0, 0, 0, 0, 0, 0];
        assert(!(command_reply(cdb) is Refused));
    }
}

/// The capacity that the device reports reads back as the last block and the size of a block. In
/// the short form the address of the last block does not fit, and is all ones.
pub proof fn lemma_capacity_reads_back()
    ensures
        read_capacity_10_data().len() == 8,
        be32(read_capacity_10_data(), 0) == 0xffff_ffff,
        be32(read_capacity_10_data(), 4) == BLOCK_SIZE,
        read_capacity_16_data().len() == 44,
        be64(read_capacity_16_data(), 0) == LBA,
        be32(read_capacity_16_data(), 8) == BLOCK_SIZE,
{
    lemma_be32_round_trip(0xffff_ffff);
    lemma_be32_round_trip(BLOCK_SIZE as u32);
    lemma_be64_round_trip(LBA);
}

/// The length that the inquiry data and the mode parameters give is that of what follows it.
pub proof fn lemma_lengths_agree()
    ensures
        inquiry_data().len() == 36,
        inquiry_data()[4] == inquiry_data().len() - 5,
        mode_header(0)[0] == mode_header(0).len() - 1,
        mode_header(20)[0] == (mode_header(20) + caching_page()).len() - 1,
        caching_page()[1] == caching_page().len() - 2,
{
}

/// Makes the sense data those of a refused command.
pub fn not_handled(ent: &mut CmdEntry)
    ensures
        final(ent).is_with_sense(*old(ent), refusal_sense()),
{
    let mut buf: [u8; 96] = [0; 96];
    buf[0] = 0x70;
    buf[2] = 5;  // illegal request
    buf[7] = 0xa;
    buf[12] = 0x24;
    ent.sense_buffer = buf;
    assert(ent.sense_buffer@ =~= refusal_sense());
}

/// Makes the sense data say nothing but a sense key.
pub fn sense(ent: &mut CmdEntry, sense_key: u8)
    ensures
        final(ent).is_with_sense(*old(ent), key_sense(sense_key)),
{
    let mut buf: [u8; 96] = [0; 96];
    buf[0] = 0x70;
    buf[2] = sense_key;
    ent.sense_buffer = buf;
    assert(ent.sense_buffer@ =~= key_sense(sense_key));
}

/// Writes `data` into the buffers of an entry.
fn send(ent: &CmdEntry, base: &mut [u8], data: &[u8]) -> (r: Result<u8, TcmuError>)
    ensures
        answered(Reply::Data(data@), *ent, old(base)@, r, *ent, final(base)@),
{
    match DataBuffer::new(ent, base) {
        Ok(mut b) => match b.write(base, data) {
            Ok(_) => Ok(NO_SENSE),
            Err(e) => Err(e),
        },
        Err(e) => Err(e),
    }
}

/// Answers a command with the standard inquiry data.
pub fn handle_inquiry_std(ent: &CmdEntry, base: &mut [u8]) -> (r: Result<u8, TcmuError>)
    ensures
        answered(Reply::Data(inquiry_data()), *ent, old(base)@, r, *ent, final(base)@),
{
    let mut buf: [u8; 36] = [0x20; 36];
    buf[0] = 0;
    buf[1] = 0;
    buf[2] = 0x5;  // SPC-3
    buf[3] = 2;  // response data format
    buf[4] = 31;  // additional length
    buf[5] = 0;
    buf[6] = 0;
    buf[7] = 2;  // command queuing
    buf[8] = 0x6d;
    buf[9] = 0x65;
    buf[10] = 0x6d;
    buf[32] = 0x30;
    buf[33] = 0x30;
    buf[34] = 0x30;
    buf[35] = 0x31;
    assert(buf@ =~= inquiry_data());
    send(ent, base, &buf)
}

/// Answers INQUIRY.
pub fn handle_inquiry(cdb: &[u8; 16], base: &mut [u8], ent: &mut CmdEntry) -> (r: Result<
    u8,
    TcmuError,
>)
    ensures
        answered(inquiry_reply(cdb@), *old(ent), old(base)@, r, *final(ent), final(base)@),
{
    let b: u8 = cdb[1];
    assert(b & 1 == b % 2) by (bit_vector);
    let evpd: bool = b & 1 > 0;
    if !evpd {
        if cdb[2] != 0 {
            not_handled(ent);
            Ok(CHECK_CONDITION)
        } else {
            handle_inquiry_std(ent, base)
        }
    } else {
        not_handled(ent);
        Ok(CHECK_CONDITION)
    }
}

/// Answers TEST UNIT READY.
pub fn handle_test_unit_ready() -> (status: u8)
    ensures
        status == NO_SENSE,
{
    NO_SENSE
}

/// Answers MODE SENSE(6).
pub fn handle_mode_sense_6(cdb: &[u8; 16], ent: &mut CmdEntry, base: &mut [u8]) -> (r: Result<
    u8,
    TcmuError,
>)
    ensures
        answered(mode_sense_6_reply(cdb@), *old(ent), old(base)@, r, *final(ent), final(base)@),
{
    let b: u8 = cdb[2];
    assert(b & 0x3f == b % 64) by (bit_vector);
    let page_code: u8 = b & 0x3f;
    if page_code == 0x0 {
        // Vendor specific: no page.
        let header: [u8; 4] = [3, 0, 0x10, 0];
        assert(header@ =~= mode_header(0));
        send(ent, base, &header)
    } else if page_code == 0x3f || page_code == 0x8 {
        let mut buf: [u8; 24] = [0; 24];
        buf[0] = 3 + 20;
        buf[2] = 0x10;  // DPOFUA is set, WP is not
        buf[4] = 0x8;
        buf[5] = 0x12;
        buf[6] = 0x4;  // WCE
        assert(buf@ =~= mode_header(20) + caching_page());
        send(ent, base, &buf)
    } else {
        not_handled(ent);
        Ok(CHECK_CONDITION)
    }
}

/// Answers READ CAPACITY(10).
pub fn handle_read_capacity_10(ent: &CmdEntry, base: &mut [u8]) -> (r: Result<u8, TcmuError>)
    ensures
        answered(Reply::Data(read_capacity_10_data()), *ent, old(base)@, r, *ent, final(base)@),
{
    let lba: u32 = if LBA > 0xffff_ffff {
        0xffff_ffff
    } else {
        LBA as u32
    };
    let mut buf: Vec<u8> = Vec::new();
    push_be32(&mut buf, lba);
    push_be32(&mut buf, BLOCK_SIZE as u32);
    assert(buf@ =~= read_capacity_10_data());
    send(ent, base, buf.as_slice())
}

/// Answers REPORT SUPPORTED OPERATION CODES.
pub fn handle_report_supported_operation_codes(
    cdb: &[u8; 16],
    ent: &mut CmdEntry,
    base: &mut [u8],
) -> (r: Result<u8, TcmuError>)
    ensures
        answered(
            report_supported_operation_codes_reply(cdb@),
            *old(ent),
            old(base)@,
            r,
            *final(ent),
            final(base)@,
        ),
{
    let requested_operation_code: u8 = cdb[3];
    if cdb[2] == 1 {
        // RCTD is 0 and the reporting options are 1.
        let mut buf: [u8; 2] = [0; 2];
        match requested_operation_code {
            INQUIRY
            | TEST_UNIT_READY
            | MODE_SENSE_6
            | READ_CAPACITY_10
            | REPORT_OPERATION
            | SERVICE_ACTION_IN_16
            | READ_10
            | WRITE_10
            | READ_16
            | WRITE_16 => {
                buf[1] = 3;
            },
            _ => {
                buf[1] = 1;
            },
        }
        assert(report_supported_operation_codes_reply(cdb@) == Reply::Data(buf@)) by {
            assert(buf@ =~= seq![0u8, if reported(cdb@[3]) { 3u8 } else { 1 }]);
        }
        send(ent, base, &buf)
    } else {
        not_handled(ent);
        Ok(CHECK_CONDITION)
    }
}

/// Answers the maintenance commands.
pub fn handle_report(cdb: &[u8; 16], ent: &mut CmdEntry, base: &mut [u8]) -> (r: Result<
    u8,
    TcmuError,
>)
    ensures
        answered(report_reply(cdb@), *old(ent), old(base)@, r, *final(ent), final(base)@),
{
    let b: u8 = cdb[1];
    assert(b & 0x1f == b % 32) by (bit_vector);
    let service_action: u8 = b & 0x1f;
    match service_action {
        0xc => handle_report_supported_operation_codes(cdb, ent, base),
        _ => {
            not_handled(ent);
            Ok(CHECK_CONDITION)
        },
    }
}

/// Answers READ CAPACITY(16).
pub fn handle_read_capacity_16(ent: &CmdEntry, base: &mut [u8]) -> (r: Result<u8, TcmuError>)
    ensures
        answered(Reply::Data(read_capacity_16_data()), *ent, old(base)@, r, *ent, final(base)@),
{
    let mut buf: Vec<u8> = Vec::new();
    push_be64(&mut buf, LBA);
    push_be32(&mut buf, BLOCK_SIZE as u32);
    buf.push(0x10);  // the basis of the address: the whole device
    let ghost head = buf@;
    let mut i: usize = 0;
    while i < 31
        invariant
            i <= 31,
            buf@ == head + Seq::new(i as nat, |k: int| 0u8),
        decreases 31 - i,
    {
        buf.push(0);
        i += 1;
        assert(buf@ =~= head + Seq::new(i as nat, |k: int| 0u8));
    }
    assert(buf@ =~= read_capacity_16_data());
    send(ent, base, buf.as_slice())
}

/// Answers SERVICE ACTION IN(16).
pub fn handle_service_action_16(cdb: &[u8; 16], ent: &mut CmdEntry, base: &mut [u8]) -> (r: Result<
    u8,
    TcmuError,
>)
    ensures
        answered(
            service_action_16_reply(cdb@),
            *old(ent),
            old(base)@,
            r,
            *final(ent),
            final(base)@,
        ),
{
    let b: u8 = cdb[1];
    assert(b & 0x1f == b % 32) by (bit_vector);
    let service_action: u8 = b & 0x1f;
    match service_action {
        0x10 => handle_read_capacity_16(ent, base),
        _ => {
            not_handled(ent);
            Ok(CHECK_CONDITION)
        },
    }
}

/// The bytes of the storage that a read or a write is about, from the first on and without the
/// second, if both fit in 64 bits.
pub fn transfer_range(cdb: &[u8; 16]) -> (r: Option<(u64, u64)>)
    requires
        is_read_write(cdb@[0]),
    ensures
        match r {
            Some((begin, end)) => begin == transfer_begin(cdb@) && end == transfer_end(cdb@),
            None => transfer_end(cdb@) > u64::MAX,
        },
{
    let (lba, transfer_length): (u64, u64) = match cdb[0] {
        READ_10 | WRITE_10 => (get_be32(cdb, 2) as u64, get_be16(cdb, 7) as u64),
        _ => (get_be64(cdb, 2), get_be32(cdb, 10) as u64),
    };
    let begin: u64 = match BLOCK_SIZE.checked_mul(lba) {
        Some(begin) => begin,
        None => {
            return None;
        },
    };
    match begin.checked_add(BLOCK_SIZE * transfer_length) {
        Some(end) => Some((begin, end)),
        None => None,
    }
}

/// Answers a read or a write. No data are moved: neither the storage nor the buffers change.
pub fn handle_read_write_1x(
    storage: &mut [u8],
    cdb: &[u8; 16],
    ent: &CmdEntry,
    base: &mut [u8],
) -> (r: Result<u8, TcmuError>)
    requires
        is_read_write(cdb@[0]),
    ensures
        answered(read_write_1x_reply(cdb@), *ent, old(base)@, r, *ent, final(base)@),
        final(storage)@ == old(storage)@,
{
    match transfer_range(cdb) {
        Some(_) => match DataBuffer::new(ent, base) {
            Ok(_) => Ok(NO_SENSE),
            Err(e) => Err(e),
        },
        None => Err(TcmuError::LbaOverflow),
    }
}

/// Copies a command block out of the region. The first byte says how long it is; the bytes
/// behind it are zero.
pub fn load_cdb(base: &[u8], off: u64) -> (r: Result<[u8; 16], TcmuError>)
    ensures
        match cdb_at(base@, off as int) {
            Ok(cdb) => r is Ok && r->Ok_0@ == cdb,
            Err(e) => r is Err && r->Err_0 == e,
        },
{
    if off >= base.len() as u64 {
        return Err(TcmuError::OutOfBounds);
    }
    let p: usize = off as usize;
    let b: u8 = base[p];
    assert((b >> 5) & 7 == b / 32) by (bit_vector);
    let group: u8 = (b >> 5) & 7;
    let l: usize = match group {
        0 => 6,
        1 | 2 => 10,
        4 => 16,
        5 => 12,
        _ => {
            return Err(TcmuError::UnknownCdbGroup(group));
        },
    };
    if l > base.len() - p {
        return Err(TcmuError::OutOfBounds);
    }
    let mut s: [u8; 16] = [0; 16];
    let mut i: usize = 0;
    while i < l
        invariant
            i <= l <= 16,
            p + l <= base.len(),
            forall|k: int| 0 <= k < i ==> s@[k] == base@[p + k],
            forall|k: int| i <= k < 16 ==> s@[k] == 0,
        decreases l - i,
    {
        s[i] = base[p + i];
        i += 1;
    }
    assert(s@ =~= cdb_at(base@, off as int)->Ok_0);
    Ok(s)
}

/// Answers a command.
pub fn handle_command(
    storage: &mut [u8],
    cdb: &[u8; 16],
    ent: &mut CmdEntry,
    base: &mut [u8],
) -> (r: Result<u8, TcmuError>)
    ensures
        answered(command_reply(cdb@), *old(ent), old(base)@, r, *final(ent), final(base)@),
        final(storage)@ == old(storage)@,
{
    match cdb[0] {
        INQUIRY => handle_inquiry(cdb, base, ent),
        TEST_UNIT_READY => Ok(handle_test_unit_ready()),
        MODE_SENSE_6 => handle_mode_sense_6(cdb, ent, base),
        READ_CAPACITY_10 => handle_read_capacity_10(ent, base),
        REPORT_OPERATION => handle_report(cdb, ent, base),
        READ_10 | WRITE_10 | READ_16 | WRITE_16 => handle_read_write_1x(storage, cdb, ent, base),
        SERVICE_ACTION_IN_16 => handle_service_action_16(cdb, ent, base),
        SYNCHRONIZE_CACHE_10 => Ok(NO_SENSE),
        _ => {
            not_handled(ent);
            Ok(CHECK_CONDITION)
        },
    }
}

} // verus!
