use tcmu_mem::error::TcmuError;
use tcmu_mem::ring::{do_cmd, do_entry};
use tcmu_mem::scsi::{CHECK_CONDITION, NO_SENSE};
use tcmu_mem::tcmu::Mailbox;

const OFF: u32 = 128;
const SIZE: u32 = 1024;
const CDBS: usize = 2048;
const BUFFERS: usize = 4096;

fn region() -> Vec<u8> {
    vec![0xeeu8; 8192]
}

fn pad(mem: &mut [u8], at: u32, len: u32) {
    let p = (OFF + at) as usize;
    mem[p..p + 4].copy_from_slice(&len.to_le_bytes());
}

/// Puts a command at `at`, with its block in slot `slot` and one buffer of 64 bytes there.
fn command(mem: &mut [u8], at: u32, len: u32, slot: usize, block: &[u8]) {
    let p = (OFF + at) as usize;
    let cdb = CDBS + 16 * slot;
    let buffer = BUFFERS + 64 * slot;
    mem[p..p + 4].copy_from_slice(&(len | 1).to_le_bytes());
    mem[p + 8..p + 12].copy_from_slice(&1u32.to_le_bytes());
    mem[p + 24..p + 32].copy_from_slice(&(cdb as u64).to_le_bytes());
    mem[p + 48..p + 56].copy_from_slice(&(buffer as u64).to_le_bytes());
    mem[p + 56..p + 64].copy_from_slice(&64u64.to_le_bytes());
    mem[cdb..cdb + 16].fill(0);
    mem[cdb..cdb + block.len()].copy_from_slice(block);
}

fn status(mem: &[u8], at: u32) -> u8 {
    mem[(OFF + at) as usize + 8]
}

fn mailbox(cmd_tail: u32, cmd_head: u32) -> Mailbox {
    Mailbox { cmd_head, cmd_tail }
}

#[test]
fn empty_ring_changes_nothing() {
    let mut mem = region();
    let mut mb = mailbox(40, 40);
    assert_eq!(do_cmd(&mut [], &mut mem, &mut mb, SIZE, OFF), Ok(0));
    assert_eq!(mem, region());
    assert_eq!(mb, mailbox(40, 40));
}

#[test]
fn commands_are_handled_up_to_the_head() {
    let mut mem = region();
    command(&mut mem, 0, 112, 0, &[0x12]);
    pad(&mut mem, 112, 16);
    command(&mut mem, 128, 120, 1, &[0x00]);
    command(&mut mem, 248, 112, 2, &[0x5f]);
    let mut mb = mailbox(0, 360);
    assert_eq!(do_cmd(&mut [], &mut mem, &mut mb, SIZE, OFF), Ok(4));
    assert_eq!(mb, mailbox(360, 360));
    assert_eq!(status(&mem, 0), NO_SENSE);
    assert_eq!(&mem[BUFFERS + 8..BUFFERS + 11], b"mem");
    assert_eq!(status(&mem, 128), NO_SENSE);
    assert_eq!(status(&mem, 248), CHECK_CONDITION);
}

#[test]
fn refused_command_is_answered_with_sense_data() {
    let mut mem = region();
    command(&mut mem, 0, 112, 0, &[0x12, 1]);
    let before = mem.clone();
    assert_eq!(do_entry(&mut [], &mut mem, OFF as usize), Ok(112));
    let p = OFF as usize;
    for i in 0..mem.len() {
        let expected = if i == p + 8 {
            2
        } else if i >= p + 16 && i < p + 112 {
            match i - p - 16 {
                0 => 0x70,
                2 => 5,
                7 => 0xa,
                12 => 0x24,
                _ => 0,
            }
        } else {
            before[i]
        };
        assert_eq!(mem[i], expected, "byte {}", i);
    }
}

#[test]
fn command_that_is_carried_out_keeps_its_sense_data() {
    let mut mem = region();
    command(&mut mem, 0, 112, 0, &[0x35]);
    let mut expected = mem.clone();
    expected[OFF as usize + 8] = 0;
    assert_eq!(do_entry(&mut [], &mut mem, OFF as usize), Ok(112));
    assert_eq!(mem, expected);
}

#[test]
fn data_command_changes_status_and_buffers() {
    let mut mem = region();
    command(&mut mem, 0, 112, 0, &[0x25]);
    let mut expected = mem.clone();
    expected[OFF as usize + 8] = 0;
    expected[BUFFERS..BUFFERS + 8].copy_from_slice(&[0xff, 0xff, 0xff, 0xff, 0, 0, 0x10, 0]);
    assert_eq!(do_entry(&mut [], &mut mem, OFF as usize), Ok(112));
    assert_eq!(mem, expected);
}

#[test]
fn ring_wraps() {
    let mut mem = region();
    command(&mut mem, 912, 112, 0, &[0x00]);
    command(&mut mem, 0, 112, 1, &[0x00]);
    let mut mb = mailbox(912, 112);
    assert_eq!(do_cmd(&mut [], &mut mem, &mut mb, SIZE, OFF), Ok(2));
    assert_eq!(mb, mailbox(112, 112));
    assert_eq!(status(&mem, 912), NO_SENSE);
    assert_eq!(status(&mem, 0), NO_SENSE);
}

#[test]
fn one_entry() {
    let mut mem = region();
    pad(&mut mem, 16, 1008);
    let before = mem.clone();
    let mut mb = mailbox(16, 0);
    assert_eq!(do_cmd(&mut [], &mut mem, &mut mb, SIZE, OFF), Ok(1));
    assert_eq!(mb, mailbox(0, 0));
    assert_eq!(mem, before);
}

#[test]
fn two_goes_are_one() {
    let mut mem1 = region();
    command(&mut mem1, 0, 112, 0, &[0x12]);
    command(&mut mem1, 112, 112, 1, &[0x1f]);
    command(&mut mem1, 224, 112, 2, &[0x9e, 0x10]);
    let mut mem2 = mem1.clone();

    let mut mb = mailbox(0, 112);
    assert_eq!(do_cmd(&mut [], &mut mem1, &mut mb, SIZE, OFF), Ok(1));
    mb.cmd_head = 336;
    assert_eq!(do_cmd(&mut [], &mut mem1, &mut mb, SIZE, OFF), Ok(2));

    let mut mb = mailbox(0, 336);
    assert_eq!(do_cmd(&mut [], &mut mem2, &mut mb, SIZE, OFF), Ok(3));
    assert_eq!(mem1, mem2);
}

#[test]
fn unknown_entry_stops_the_handler() {
    let mut mem = region();
    command(&mut mem, 0, 112, 0, &[0x00]);
    pad(&mut mem, 112, 112 | 5);
    let mut mb = mailbox(0, 224);
    assert_eq!(
        do_cmd(&mut [], &mut mem, &mut mb, SIZE, OFF),
        Err(TcmuError::UnknownOp(5))
    );
    assert_eq!(mb, mailbox(0, 224));
    assert_eq!(status(&mem, 0), NO_SENSE);
}

#[test]
fn unknown_command_block_stops_the_handler() {
    let mut mem = region();
    command(&mut mem, 0, 112, 0, &[0xe0]);
    let before = mem.clone();
    let mut mb = mailbox(0, 112);
    assert_eq!(
        do_cmd(&mut [], &mut mem, &mut mb, SIZE, OFF),
        Err(TcmuError::UnknownCdbGroup(7))
    );
    assert_eq!(mem, before);
}

#[test]
fn entry_outside_the_region() {
    let mut mem = region();
    assert_eq!(do_entry(&mut [], &mut mem, 8081), Err(TcmuError::OutOfBounds));
    assert_eq!(do_entry(&mut [], &mut mem, usize::MAX), Err(TcmuError::OutOfBounds));
    assert_eq!(mem, region());
}

#[test]
fn command_that_does_not_look_at_its_buffers() {
    let mut mem = region();
    command(&mut mem, 0, 112, 0, &[0x00]);
    let p = OFF as usize;
    mem[p + 8..p + 12].copy_from_slice(&u32::MAX.to_le_bytes());
    assert_eq!(do_entry(&mut [], &mut mem, p), Ok(112));
    assert_eq!(status(&mem, 0), NO_SENSE);

    command(&mut mem, 0, 112, 0, &[0x28]);
    mem[p + 8..p + 12].copy_from_slice(&u32::MAX.to_le_bytes());
    assert_eq!(do_entry(&mut [], &mut mem, p), Err(TcmuError::OutOfBounds));
}

#[test]
fn read_beyond_64_bits() {
    let mut mem = region();
    command(&mut mem, 0, 112, 0, &[0x88, 0, 0xff]);
    assert_eq!(do_entry(&mut [], &mut mem, OFF as usize), Err(TcmuError::LbaOverflow));
}

#[test]
fn ring_offsets_beyond_32_bits() {
    let mut mem = region();
    let mut mb = mailbox(0, u32::MAX);
    assert_eq!(
        do_cmd(&mut [], &mut mem, &mut mb, SIZE, OFF),
        Err(TcmuError::OffsetOverflow)
    );
    let mut mb = mailbox(u32::MAX, 0);
    assert_eq!(
        do_cmd(&mut [], &mut mem, &mut mb, SIZE, OFF),
        Err(TcmuError::OffsetOverflow)
    );
    pad(&mut mem, 8, 0xffff_fff8);
    let mut mb = mailbox(8, 0);
    assert_eq!(
        do_cmd(&mut [], &mut mem, &mut mb, SIZE, OFF),
        Err(TcmuError::OffsetOverflow)
    );
    pad(&mut mem, 0, 0xffff_fff0);
    let mut mb = mailbox(0, 8);
    assert_eq!(
        do_cmd(&mut [], &mut mem, &mut mb, u32::MAX, OFF),
        Err(TcmuError::OffsetOverflow)
    );
}

#[test]
fn ring_without_room() {
    let mut mem = region();
    pad(&mut mem, 0, 8);
    let mut mb = mailbox(0, 8);
    assert_eq!(
        do_cmd(&mut [], &mut mem, &mut mb, 0, OFF),
        Err(TcmuError::EmptyRing)
    );
}
