//! What holds of the answers to commands: which command gets which, down to the byte.
#[allow(unused_imports)]
use crate::bytes::{be16, be32, be64, le64, lemma_be32_bytes, lemma_be64_halves};
#[allow(unused_imports)]
use crate::data_buffer::{
    least, lemma_last_write_stays, lemma_locate, lemma_offsets, lemma_offsets_len,
    lemma_scatter_span, offsets_from, span, total,
};
#[allow(unused_imports)]
use crate::error::TcmuError;
#[allow(unused_imports)]
use crate::scsi::{
    answered, cdb_at, command_reply, data_in, data_offsets, inquiry_data, inquiry_reply,
    key_sense, lemma_capacity_reads_back, mode_sense_6_reply, read_capacity_10_data,
    read_capacity_16_data, read_write_1x_reply, refusal_sense, report_reply,
    report_supported_operation_codes_reply, service_action_16_reply, transfer_begin,
    transfer_end, Reply,
};
#[allow(unused_imports)]
use crate::tcmu::{iov_table, lemma_iov_table, CmdEntry};
use vstd::prelude::*;

verus! {

/// The first byte of a command block says how long it is: below 0x20 six bytes, below 0x60 ten,
/// from 0x80 on sixteen, and from 0xa0 up to 0xbf twelve. The others are of no known length. The
/// block has to lie inside the region, and comes with zeros behind it.
pub proof fn lemma_command_block(mem: Seq<u8>, off: int)
    requires
        0 <= off,
    ensures
        off >= mem.len() ==> cdb_at(mem, off) == Err::<Seq<u8>, TcmuError>(TcmuError::OutOfBounds),
        off < mem.len() ==> {
            let b = mem[off];
            let len: int = if b < 0x20 {
                6
            } else if b < 0x60 {
                10
            } else if 0x80 <= b < 0xa0 {
                16
            } else if 0xa0 <= b < 0xc0 {
                12
            } else {
                0
            };
            &&& len == 0 ==> cdb_at(mem, off) == Err::<Seq<u8>, TcmuError>(
                TcmuError::UnknownCdbGroup(b / 32),
            )
            &&& len > 0 && off + len > mem.len() ==> cdb_at(mem, off) == Err::<Seq<u8>, TcmuError>(
                TcmuError::OutOfBounds,
            )
            &&& len > 0 && off + len <= mem.len() ==> {
                &&& cdb_at(mem, off) is Ok
                &&& cdb_at(mem, off)->Ok_0.len() == 16
                &&& forall|i: int|
                    0 <= i < len ==> #[trigger] cdb_at(mem, off)->Ok_0[i] == mem[off + i]
                &&& forall|i: int| len <= i < 16 ==> #[trigger] cdb_at(mem, off)->Ok_0[i] == 0
            }
        },
{
}

/// INQUIRY is answered by its second and third byte alone: without the EVPD bit and with no page
/// code it gets the standard data, whatever room the initiator says there is, else it is refused.
pub proof fn lemma_inquiry(cdb: Seq<u8>)
    ensures
        inquiry_reply(cdb) == (if cdb[1] % 2 == 0 && cdb[2] == 0 {
            Reply::Data(inquiry_data())
        } else {
            Reply::Refused
        }),
        cdb[0] == 0x12 ==> command_reply(cdb) == inquiry_reply(cdb),
{
}

/// Two INQUIRY commands that agree in the EVPD bit and the page code are answered alike.
pub proof fn lemma_inquiries_agree(cdb1: Seq<u8>, cdb2: Seq<u8>)
    requires
        cdb1[0] == 0x12,
        cdb2[0] == 0x12,
        cdb1[1] % 2 == cdb2[1] % 2,
        cdb1[2] == cdb2[2],
    ensures
        command_reply(cdb1) == command_reply(cdb2),
{
}

/// The standard inquiry data: a disk of version 5, response data format 2, 31 bytes more, command
/// queuing; then vendor, product and revision as text.
pub proof fn lemma_inquiry_data()
    ensures
        inquiry_data().len() == 36,
        inquiry_data().take(8) == seq![0u8, 0, 5, 2, 31, 0, 0, 2],
        "mem                     0001"@.len() == 28,
        forall|i: int|
            0 <= i < 28 ==> #[trigger] inquiry_data().skip(8)[i] as int
                == "mem                     0001"@[i] as int,
{
    reveal_strlit("mem                     0001");
    assert(inquiry_data().take(8) =~= seq![0u8, 0, 5, 2, 31, 0, 0, 2]);
}

/// MODE SENSE(6) is answered by its page code alone, the six low bits of its third byte: page 0
/// gets the header, page 8 and all pages get the header and the caching page, and any other is
/// refused.
pub proof fn lemma_mode_sense_6(cdb: Seq<u8>)
    ensures
        cdb[0] == 0x1a ==> command_reply(cdb) == mode_sense_6_reply(cdb),
        ({
            let page = cdb[2] % 64;
            &&& page == 0 ==> mode_sense_6_reply(cdb) == Reply::Data(seq![3u8, 0, 16, 0])
            &&& page == 8 || page == 63 ==> {
                &&& mode_sense_6_reply(cdb) is Data
                &&& mode_sense_6_reply(cdb)->Data_0.len() == 24
                &&& mode_sense_6_reply(cdb)->Data_0.take(7) == seq![23u8, 0, 16, 0, 8, 18, 4]
                &&& forall|i: int|
                    7 <= i < 24 ==> #[trigger] mode_sense_6_reply(cdb)->Data_0[i] == 0
            }
            &&& page != 0 && page != 8 && page != 63 ==> mode_sense_6_reply(cdb) is Refused
        }),
{
    let page = cdb[2] % 64;
    if page == 0 {
        assert(mode_sense_6_reply(cdb)->Data_0 =~= seq![3u8, 0, 16, 0]);
    } else if page == 8 || page == 63 {
        assert(mode_sense_6_reply(cdb)->Data_0.take(7) =~= seq![23u8, 0, 16, 0, 8, 18, 4]);
    }
}

/// READ CAPACITY(10), and among the service actions READ CAPACITY(16), get the capacity, whatever
/// the rest of the command block; any other service action is refused. A block has 4096 bytes, and
/// the last one is the last but one that 64 bits can number.
pub proof fn lemma_read_capacity(cdb: Seq<u8>)
    ensures
        cdb[0] == 0x25 ==> command_reply(cdb) == Reply::Data(read_capacity_10_data()),
        read_capacity_10_data() == seq![0xffu8, 0xff, 0xff, 0xff, 0, 0, 0x10, 0],
        cdb[0] == 0x9e ==> command_reply(cdb) == service_action_16_reply(cdb),
        service_action_16_reply(cdb) == (if cdb[1] % 32 == 0x10 {
            Reply::Data(read_capacity_16_data())
        } else {
            Reply::Refused
        }),
        read_capacity_16_data().len() == 44,
        read_capacity_16_data().take(13) == seq![
            0xffu8,
            0xff,
            0xff,
            0xff,
            0xff,
            0xff,
            0xff,
            0xfe,
            0,
            0,
            0x10,
            0,
            0x10,
        ],
        forall|i: int| 13 <= i < 44 ==> #[trigger] read_capacity_16_data()[i] == 0,
{
    lemma_capacity_reads_back();
    let short = read_capacity_10_data();
    let long = read_capacity_16_data();
    lemma_be32_bytes(short, 0);
    lemma_be32_bytes(short, 4);
    assert(short =~= seq![0xffu8, 0xff, 0xff, 0xff, 0, 0, 0x10, 0]);
    lemma_be64_halves(long, 0);
    lemma_be32_bytes(long, 0);
    lemma_be32_bytes(long, 4);
    lemma_be32_bytes(long, 8);
    assert(long.take(13) =~= seq![
        0xffu8,
        0xff,
        0xff,
        0xff,
        0xff,
        0xff,
        0xff,
        0xfe,
        0,
        0,
        0x10,
        0,
        0x10,
    ]);
}

/// Among the maintenance commands only the report of one operation code is answered: with 3 for
/// the ten codes of this device, with 1 for any other. It looks at no byte behind the code.
pub proof fn lemma_report(cdb: Seq<u8>)
    ensures
        cdb[0] == 0xa3 ==> command_reply(cdb) == report_reply(cdb),
        cdb[1] % 32 == 0xc ==> report_reply(cdb) == report_supported_operation_codes_reply(cdb),
        cdb[1] % 32 != 0xc ==> report_reply(cdb) is Refused,
        cdb[2] != 1 ==> report_supported_operation_codes_reply(cdb) is Refused,
        cdb[2] == 1 ==> {
            let known = seq![
                0x00u8,
                0x12,
                0x1a,
                0x25,
                0x28,
                0x2a,
                0x88,
                0x8a,
                0x9e,
                0xa3,
            ];
            report_supported_operation_codes_reply(cdb) == Reply::Data(
                seq![
                    0u8,
                    if known.contains(cdb[3]) {
                        3
                    } else {
                        1
                    },
                ],
            )
        },
{
    let known = seq![0x00u8, 0x12, 0x1a, 0x25, 0x28, 0x2a, 0x88, 0x8a, 0x9e, 0xa3];
    assert(known[0] == 0x00 && known[1] == 0x12 && known[2] == 0x1a && known[3] == 0x25 && known[4]
        == 0x28 && known[5] == 0x2a && known[6] == 0x88 && known[7] == 0x8a && known[8] == 0x9e
        && known[9] == 0xa3);
    if cdb[2] == 1 {
        assert(report_supported_operation_codes_reply(cdb)->Data_0 =~= seq![
            0u8,
            if known.contains(cdb[3]) {
                3
            } else {
                1
            },
        ]);
    }
}

/// TEST UNIT READY and SYNCHRONIZE CACHE(10) are carried out, whatever the rest of the command
/// block. An operation code that is not one of the device's is refused.
pub proof fn lemma_other_commands(cdb: Seq<u8>)
    ensures
        cdb[0] == 0x00 || cdb[0] == 0x35 ==> command_reply(cdb) is Done,
        !seq![
            0x00u8,
            0x12,
            0x1a,
            0x25,
            0x28,
            0x2a,
            0x35,
            0x88,
            0x8a,
            0x9e,
            0xa3,
        ].contains(cdb[0]) ==> command_reply(cdb) is Refused,
{
    let known = seq![0x00u8, 0x12, 0x1a, 0x25, 0x28, 0x2a, 0x35, 0x88, 0x8a, 0x9e, 0xa3];
    assert(known[0] == 0x00 && known[1] == 0x12 && known[2] == 0x1a && known[3] == 0x25 && known[4]
        == 0x28 && known[5] == 0x2a && known[6] == 0x35 && known[7] == 0x88 && known[8] == 0x8a
        && known[9] == 0x9e && known[10] == 0xa3);
}

/// A read or a write is about as many blocks of 4096 bytes as its length says, from the block of
/// its address on. In the short form the address has four bytes and the length two, in the long
/// form eight and four.
pub proof fn lemma_transfer(cdb: Seq<u8>)
    ensures
        cdb[0] == 0x28 || cdb[0] == 0x2a ==> {
            &&& transfer_begin(cdb) == 4096 * be32(cdb, 2)
            &&& transfer_end(cdb) - transfer_begin(cdb) == 4096 * be16(cdb, 7)
        },
        cdb[0] == 0x88 || cdb[0] == 0x8a ==> {
            &&& transfer_begin(cdb) == 4096 * be64(cdb, 2)
            &&& transfer_end(cdb) - transfer_begin(cdb) == 4096 * be32(cdb, 10)
        },
{
}

/// A read or a write whose bytes can be numbered in 64 bits is carried out, and no data move. In
/// the short form that is every one. The others stop the handler.
pub proof fn lemma_read_write(cdb: Seq<u8>)
    ensures
        cdb[0] == 0x28 || cdb[0] == 0x2a ==> {
            &&& command_reply(cdb) == read_write_1x_reply(cdb)
            &&& read_write_1x_reply(cdb) == Reply::Data(Seq::empty())
        },
        cdb[0] == 0x88 || cdb[0] == 0x8a ==> {
            &&& command_reply(cdb) == read_write_1x_reply(cdb)
            &&& 4096 * (be64(cdb, 2) + be32(cdb, 10)) <= 0xffff_ffff_ffff_ffff
                ==> read_write_1x_reply(cdb) == Reply::Data(Seq::empty())
            &&& 4096 * (be64(cdb, 2) + be32(cdb, 10)) > 0xffff_ffff_ffff_ffff
                ==> read_write_1x_reply(cdb) == Reply::Fault(TcmuError::LbaOverflow)
        },
{
    lemma_be32_bytes(cdb, 2);
    lemma_be32_bytes(cdb, 7);
    lemma_be32_bytes(cdb, 10);
    lemma_be64_halves(cdb, 2);
}

/// Sense data are in fixed format. Those of a refusal say illegal request, ten bytes more and code
/// 0x24; the others say only the key.
pub proof fn lemma_sense_data(sense_key: u8)
    ensures
        refusal_sense().len() == 96,
        refusal_sense().take(14) == seq![0x70u8, 0, 5, 0, 0, 0, 0, 10, 0, 0, 0, 0, 0x24, 0],
        forall|i: int| 14 <= i < 96 ==> #[trigger] refusal_sense()[i] == 0,
        key_sense(sense_key).len() == 96,
        key_sense(sense_key).take(3) == seq![0x70u8, 0, sense_key],
        forall|i: int| 3 <= i < 96 ==> #[trigger] key_sense(sense_key)[i] == 0,
{
    assert(refusal_sense().take(14) =~= seq![0x70u8, 0, 5, 0, 0, 0, 0, 10, 0, 0, 0, 0, 0x24, 0]);
    assert(key_sense(sense_key).take(3) =~= seq![0x70u8, 0, sense_key]);
}

/// A handler that carries a command out says status 0 and leaves the copy of the entry as it was.
/// One that refuses says status 2, sets the sense data, and leaves the region as it was. One that
/// fails changes nothing.
pub proof fn lemma_answers(
    reply: Reply,
    ent0: CmdEntry,
    mem0: Seq<u8>,
    r: Result<u8, TcmuError>,
    ent1: CmdEntry,
    mem1: Seq<u8>,
)
    requires
        answered(reply, ent0, mem0, r, ent1, mem1),
    ensures
        r is Err ==> ent1 == ent0 && mem1 == mem0,
        r matches Ok(status) ==> (reply is Refused <==> status == 2) && (reply is Done
            || reply is Data <==> status == 0),
        reply is Done || reply is Refused ==> r is Ok && mem1 == mem0,
        reply is Done || reply is Data ==> ent1 == ent0,
        reply matches Reply::Fault(e) ==> r == Err::<u8, TcmuError>(e),
        reply is Refused ==> {
            &&& ent1.off == ent0.off
            &&& ent1.len_op == ent0.len_op
            &&& ent1.iov_cnt == ent0.iov_cnt
            &&& ent1.cdb_off == ent0.cdb_off
            &&& ent1.scsi_status == ent0.scsi_status
            &&& ent1.sense_buffer@ == refusal_sense()
        },
        reply matches Reply::Data(data) ==> {
            let m = data_in(mem0, ent0.off as int, ent0.iov_cnt as nat, data);
            &&& m is Ok ==> r is Ok && mem1 == m->Ok_0
            &&& m matches Err(e) ==> r == Err::<u8, TcmuError>(e)
        },
{
}

/// The data of a command go into its buffers, one after the other, until the data or the buffers
/// are used up: byte `j` of buffer `k` gets the byte of the data that has as many before it as
/// the buffers before `k` hold, and `j` more.
pub proof fn lemma_data_offsets(mem: Seq<u8>, off: int, cnt: nat, size: nat, k: int, j: int)
    ensures
        ({
            let room = total(iov_table(mem, off, cnt), cnt as int);
            &&& size <= room ==> data_offsets(mem, off, cnt, size).len() == size
            &&& size > room ==> data_offsets(mem, off, cnt, size).len() == room
        }),
        ({
            let x = total(iov_table(mem, off, cnt), k) + j;
            0 <= k < cnt && 0 <= j < le64(mem, off + 56 + 16 * k) && x < size ==> {
                &&& 0 <= x < data_offsets(mem, off, cnt, size).len()
                &&& data_offsets(mem, off, cnt, size)[x] == le64(mem, off + 48 + 16 * k) + j
            }
        }),
{
    let table = iov_table(mem, off, cnt);
    lemma_iov_table(mem, off, cnt);
    if cnt > 0 {
        assert(0 <= table[0].iov_len);
    }
    lemma_offsets_len(table, 0, 0);
    if 0 <= k < cnt && 0 <= j < le64(mem, off + 56 + 16 * k) {
        assert(table[k].iov_len == le64(mem, off + 56 + 16 * k));
        lemma_offsets(table, 0, 0, k, j);
    }
}

/// The data of a command can be written if the table of its buffers lies inside the region and
/// each byte of the buffers that the data reach does.
pub proof fn lemma_data_fit(mem: Seq<u8>, off: int, cnt: nat, data: Seq<u8>)
    requires
        off + 48 + 16 * cnt <= mem.len(),
        forall|k: int|
            0 <= k < cnt && total(iov_table(mem, off, cnt), k) < data.len()
                && #[trigger] iov_table(mem, off, cnt)[k].iov_len > 0 ==> iov_table(
                mem,
                off,
                cnt,
            )[k].iov_base + least(
                iov_table(mem, off, cnt)[k].iov_len as nat,
                (data.len() - total(iov_table(mem, off, cnt), k)) as nat,
            ) <= mem.len(),
    ensures
        data_in(mem, off, cnt, data) is Ok,
{
    let table = iov_table(mem, off, cnt);
    lemma_iov_table(mem, off, cnt);
    let touched = data_offsets(mem, off, cnt, data.len());
    assert forall|x: int| 0 <= x < touched.len() implies 0 <= #[trigger] touched[x] < mem.len() by {
        let (k, j) = lemma_locate(table, 0, x);
        assert(touched[x] == table[k].iov_base + j);
        assert(table[k].iov_len > 0);
    }
}

/// The data of a command cannot be written if the table of its buffers does not lie inside the
/// region, or a byte of the buffers that the data reach does not.
pub proof fn lemma_data_do_not_fit(mem: Seq<u8>, off: int, cnt: nat, data: Seq<u8>, k: int, j: int)
    requires
        off + 48 + 16 * cnt > mem.len() || {
            &&& 0 <= k < cnt
            &&& 0 <= j < le64(mem, off + 56 + 16 * k)
            &&& total(iov_table(mem, off, cnt), k) + j < data.len()
            &&& le64(mem, off + 48 + 16 * k) + j >= mem.len()
        },
    ensures
        data_in(mem, off, cnt, data) == Err::<Seq<u8>, TcmuError>(TcmuError::OutOfBounds),
{
    lemma_iov_table(mem, off, cnt);
    if off + 48 + 16 * cnt <= mem.len() {
        lemma_data_offsets(mem, off, cnt, data.len(), k, j);
        let x = total(iov_table(mem, off, cnt), k) + j;
        assert(data_offsets(mem, off, cnt, data.len())[x] >= mem.len());
    }
}

/// A byte of the data is found where its place in the buffers is, unless a later byte goes to the
/// same offset.
pub proof fn lemma_data_land(mem: Seq<u8>, off: int, cnt: nat, data: Seq<u8>, k: int, j: int)
    requires
        data_in(mem, off, cnt, data) is Ok,
        0 <= k < cnt,
        0 <= j < le64(mem, off + 56 + 16 * k),
        total(iov_table(mem, off, cnt), k) + j < data.len(),
        forall|y: int|
            total(iov_table(mem, off, cnt), k) + j < y < data_offsets(
                mem,
                off,
                cnt,
                data.len(),
            ).len() ==> #[trigger] data_offsets(mem, off, cnt, data.len())[y] != le64(
                mem,
                off + 48 + 16 * k,
            ) + j,
    ensures
        data_in(mem, off, cnt, data)->Ok_0[le64(mem, off + 48 + 16 * k) + j] == data[total(
            iov_table(mem, off, cnt),
            k,
        ) + j],
{
    let touched = data_offsets(mem, off, cnt, data.len());
    let x = total(iov_table(mem, off, cnt), k) + j;
    lemma_data_offsets(mem, off, cnt, data.len(), k, j);
    lemma_last_write_stays(mem, touched, data.take(touched.len() as int), x);
}

/// No data change nothing, wherever the buffers lie, if only the table of them lies inside the
/// region.
pub proof fn lemma_no_data(mem: Seq<u8>, off: int, cnt: nat)
    requires
        off + 48 + 16 * cnt <= mem.len(),
    ensures
        data_in(mem, off, cnt, Seq::empty()) == Ok::<Seq<u8>, TcmuError>(mem),
{
    lemma_data_offsets(mem, off, cnt, 0, 0, 0);
}

/// The data of a command with one buffer replace the bytes from the start of the buffer on, as
/// many as there are data and room, and no others.
pub proof fn lemma_data_in_one_buffer(mem: Seq<u8>, off: int, data: Seq<u8>)
    requires
        off + 64 <= mem.len(),
        ({
            let n = least(data.len(), le64(mem, off + 56) as nat);
            n > 0 ==> le64(mem, off + 48) + n <= mem.len()
        }),
    ensures
        data_in(mem, off, 1, data) is Ok,
        data_in(mem, off, 1, data)->Ok_0.len() == mem.len(),
        forall|i: int|
            0 <= i < mem.len() ==> #[trigger] data_in(mem, off, 1, data)->Ok_0[i] == (if 0 <= i
                - le64(mem, off + 48) < data.len() && i - le64(mem, off + 48) < le64(
                mem,
                off + 56,
            ) {
                data[i - le64(mem, off + 48)]
            } else {
                mem[i]
            }),
{
    let table = iov_table(mem, off, 1);
    lemma_iov_table(mem, off, 1);
    let start = table[0].iov_base as int;
    assert(start == le64(mem, off + 48));
    assert(table[0].iov_len == le64(mem, off + 56));
    let offsets = offsets_from(table, 0, 0);
    assert(offsets_from(table, 1, 0) =~= Seq::empty());
    assert(offsets =~= span(start, table[0].iov_len as int));
    let n = least(data.len(), offsets.len());
    let sent = data.take(n as int);
    let touched = data_offsets(mem, off, 1, data.len());
    assert(touched =~= span(start, n as int));
    lemma_scatter_span(mem, start, sent);
}

} // verus!
