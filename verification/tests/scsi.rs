use tcmu_mem::error::TcmuError;
use tcmu_mem::scsi::{
    handle_command, handle_inquiry, handle_inquiry_std, handle_mode_sense_6,
    handle_read_capacity_10, handle_read_capacity_16, handle_read_write_1x, handle_report,
    handle_report_supported_operation_codes, handle_service_action_16, handle_test_unit_ready,
    load_cdb, not_handled, sense, transfer_range, CHECK_CONDITION, INQUIRY, MODE_SENSE_6,
    NO_SENSE, READ_10, READ_16, READ_CAPACITY_10, REPORT_OPERATION, SERVICE_ACTION_IN_16,
    SYNCHRONIZE_CACHE_10, TEST_UNIT_READY, WRITE_10, WRITE_16,
};
use tcmu_mem::tcmu::CmdEntry;

/// A region whose entry has one buffer of `len` bytes at 256.
fn region(len: u64) -> (Vec<u8>, CmdEntry) {
    let mut mem = vec![0xeeu8; 512];
    mem[8..12].copy_from_slice(&1u32.to_le_bytes());
    mem[48..56].copy_from_slice(&256u64.to_le_bytes());
    mem[56..64].copy_from_slice(&len.to_le_bytes());
    let ent = CmdEntry::load(&mem, 0).unwrap();
    (mem, ent)
}

fn cdb(start: &[u8]) -> [u8; 16] {
    let mut c = [0u8; 16];
    c[..start.len()].copy_from_slice(start);
    c
}

fn refusal() -> [u8; 96] {
    let mut s = [0u8; 96];
    s[0] = 0x70;
    s[2] = 5;
    s[7] = 0xa;
    s[12] = 0x24;
    s
}

/// The bytes that a command leaves in a buffer of 64 bytes.
fn data(c: &[u8; 16]) -> Vec<u8> {
    let (mut mem, mut ent) = region(64);
    let r = handle_command(&mut [], c, &mut ent, &mut mem);
    assert_eq!(r, Ok(NO_SENSE));
    let end = 256 + 64;
    assert!(mem[end..].iter().all(|&b| b == 0xee));
    mem[256..end].to_vec()
}

fn is_refused(c: &[u8; 16]) -> bool {
    let (mut mem, mut ent) = region(64);
    let before = mem.clone();
    let r = handle_command(&mut [], c, &mut ent, &mut mem);
    if r == Ok(CHECK_CONDITION) {
        assert_eq!(ent.sense_buffer, refusal());
        assert_eq!(mem, before);
        true
    } else {
        false
    }
}

fn inquiry_bytes() -> Vec<u8> {
    let mut v = vec![0, 0, 5, 2, 31, 0, 0, 2];
    v.extend_from_slice(b"mem                     0001");
    v
}

#[test]
fn refused_command_has_sense_data() {
    let (_, mut ent) = region(0);
    not_handled(&mut ent);
    assert_eq!(ent.sense_buffer, refusal());
    assert_eq!(ent.scsi_status, 1);
    assert_eq!(ent.iov_cnt, 1);
}

#[test]
fn sense_key_alone() {
    let (_, mut ent) = region(0);
    sense(&mut ent, 0xb);
    let mut expected = [0u8; 96];
    expected[0] = 0x70;
    expected[2] = 0xb;
    assert_eq!(ent.sense_buffer, expected);
}

#[test]
fn standard_inquiry() {
    assert_eq!(inquiry_bytes().len(), 36);
    let got = data(&cdb(&[INQUIRY]));
    assert_eq!(&got[..36], &inquiry_bytes()[..]);
    assert!(got[36..].iter().all(|&b| b == 0xee));
    let (mut mem, ent) = region(64);
    assert_eq!(handle_inquiry_std(&ent, &mut mem), Ok(NO_SENSE));
    assert_eq!(&mem[256..292], &inquiry_bytes()[..]);
}

#[test]
fn inquiry_into_a_short_buffer() {
    let (mut mem, mut ent) = region(5);
    assert_eq!(handle_inquiry(&cdb(&[INQUIRY]), &mut mem, &mut ent), Ok(NO_SENSE));
    assert_eq!(&mem[256..262], &[0, 0, 5, 2, 31, 0xee]);
}

#[test]
fn inquiry_of_pages_is_refused() {
    assert!(is_refused(&cdb(&[INQUIRY, 1])));
    assert!(is_refused(&cdb(&[INQUIRY, 1, 0x80])));
    assert!(is_refused(&cdb(&[INQUIRY, 0, 1])));
    // Only the lowest bit asks for vital product data.
    assert!(!is_refused(&cdb(&[INQUIRY, 0xfe, 0])));
}

#[test]
fn inquiry_into_a_buffer_outside() {
    let (mut mem, mut ent) = region(1000);
    mem.truncate(280);
    let before = mem.clone();
    assert_eq!(
        handle_inquiry(&cdb(&[INQUIRY]), &mut mem, &mut ent),
        Err(TcmuError::OutOfBounds)
    );
    assert_eq!(mem, before);
}

#[test]
fn unit_is_ready() {
    assert_eq!(handle_test_unit_ready(), NO_SENSE);
    assert!(data(&cdb(&[TEST_UNIT_READY])).iter().all(|&b| b == 0xee));
    assert!(data(&cdb(&[SYNCHRONIZE_CACHE_10])).iter().all(|&b| b == 0xee));
}

#[test]
fn mode_pages() {
    let got = data(&cdb(&[MODE_SENSE_6, 0, 0]));
    assert_eq!(&got[..5], &[3, 0, 0x10, 0, 0xee]);
    let mut page = vec![23, 0, 0x10, 0, 8, 0x12, 4];
    page.resize(24, 0);
    for code in [0x3f, 0x8, 0x48, 0xff] {
        let got = data(&cdb(&[MODE_SENSE_6, 8, code, 0xff]));
        assert_eq!(&got[..24], &page[..]);
        assert_eq!(got[24], 0xee);
    }
    assert!(is_refused(&cdb(&[MODE_SENSE_6, 0, 1])));
    let (mut mem, mut ent) = region(64);
    assert_eq!(
        handle_mode_sense_6(&cdb(&[MODE_SENSE_6, 0, 0x1c]), &mut ent, &mut mem),
        Ok(CHECK_CONDITION)
    );
}

#[test]
fn capacity() {
    let got = data(&cdb(&[READ_CAPACITY_10]));
    assert_eq!(&got[..9], &[0xff, 0xff, 0xff, 0xff, 0, 0, 0x10, 0, 0xee]);
    let got = data(&cdb(&[SERVICE_ACTION_IN_16, 0x10]));
    let mut expected = vec![0xff; 7];
    expected.extend_from_slice(&[0xfe, 0, 0, 0x10, 0, 0x10]);
    expected.resize(44, 0);
    assert_eq!(&got[..44], &expected[..]);
    assert_eq!(got[44], 0xee);

    let (mut mem, mut ent) = region(64);
    assert_eq!(handle_read_capacity_10(&ent, &mut mem), Ok(NO_SENSE));
    assert_eq!(handle_read_capacity_16(&ent, &mut mem), Ok(NO_SENSE));
    assert_eq!(&mem[256..300], &expected[..]);
    assert_eq!(
        handle_service_action_16(&cdb(&[SERVICE_ACTION_IN_16, 0x11]), &mut ent, &mut mem),
        Ok(CHECK_CONDITION)
    );
}

#[test]
fn reported_operation_codes() {
    let supported = [
        INQUIRY,
        TEST_UNIT_READY,
        MODE_SENSE_6,
        READ_CAPACITY_10,
        REPORT_OPERATION,
        SERVICE_ACTION_IN_16,
        READ_10,
        WRITE_10,
        READ_16,
        WRITE_16,
    ];
    for op in 0..=255u8 {
        let got = data(&cdb(&[REPORT_OPERATION, 0xc, 1, op]));
        let expected = if supported.contains(&op) { 3 } else { 1 };
        assert_eq!(&got[..3], &[0, expected, 0xee]);
        // What is not reported is refused, but for the one that is carried out all the same.
        if expected == 1 && op != SYNCHRONIZE_CACHE_10 {
            assert!(is_refused(&cdb(&[op, 0x10])));
        }
    }
    assert!(is_refused(&cdb(&[REPORT_OPERATION, 0xc, 0, INQUIRY])));
    assert!(is_refused(&cdb(&[REPORT_OPERATION, 0xd, 1, INQUIRY])));
    let (mut mem, mut ent) = region(64);
    let c = cdb(&[REPORT_OPERATION, 0xec, 1, 0x35]);
    assert_eq!(handle_report(&c, &mut ent, &mut mem), Ok(NO_SENSE));
    assert_eq!(&mem[256..258], &[0, 1]);
    let c = cdb(&[REPORT_OPERATION, 0xc, 2]);
    assert_eq!(
        handle_report_supported_operation_codes(&c, &mut ent, &mut mem),
        Ok(CHECK_CONDITION)
    );
}

#[test]
fn transfer_ranges() {
    let short = cdb(&[READ_10, 0, 0x01, 0x02, 0x03, 0x04, 0xff, 0x05, 0x06, 0xff]);
    assert_eq!(
        transfer_range(&short),
        Some((4096 * 0x0102_0304, 4096 * (0x0102_0304 + 0x0506)))
    );
    let long = cdb(&[WRITE_16, 0, 0, 0, 0, 1, 0, 0, 0, 2, 0x10, 0, 0, 3]);
    assert_eq!(
        transfer_range(&long),
        Some((4096 * 0x1_0000_0002, 4096 * (0x1_0000_0002 + 0x1000_0003)))
    );
    let end = cdb(&[READ_16, 0, 0, 0x0f, 0xff, 0xff, 0xff, 0xff, 0xff, 0xff, 0, 0, 0, 0]);
    assert_eq!(transfer_range(&end), Some((0xffff_ffff_ffff_f000, 0xffff_ffff_ffff_f000)));
    let over = cdb(&[READ_16, 0, 0, 0x0f, 0xff, 0xff, 0xff, 0xff, 0xff, 0xff, 0, 0, 0, 1]);
    assert_eq!(transfer_range(&over), None);
    let far = cdb(&[READ_16, 0, 0, 0x10, 0, 0, 0, 0, 0, 0]);
    assert_eq!(transfer_range(&far), None);
}

#[test]
fn reads_and_writes_move_nothing() {
    let mut storage = vec![7u8; 8192];
    for op in [READ_10, WRITE_10, READ_16, WRITE_16] {
        let (mut mem, ent) = region(64);
        let before = mem.clone();
        let mut c = cdb(&[op]);
        c[8] = 1;
        assert_eq!(handle_read_write_1x(&mut storage, &c, &ent, &mut mem), Ok(NO_SENSE));
        assert_eq!(mem, before);
        assert_eq!(storage, vec![7u8; 8192]);
    }
    let (mut mem, ent) = region(64);
    let far = cdb(&[WRITE_16, 0, 0xff]);
    assert_eq!(
        handle_read_write_1x(&mut storage, &far, &ent, &mut mem),
        Err(TcmuError::LbaOverflow)
    );
}

#[test]
fn command_blocks_are_loaded() {
    let mut mem: Vec<u8> = (0..64).collect();
    let lengths = [
        (0x12u8, 6usize),
        (0x28, 10),
        (0x55, 10),
        (0x88, 16),
        (0xa3, 12),
    ];
    for (op, len) in lengths {
        mem[8] = op;
        let mut expected = [0u8; 16];
        expected[..len].copy_from_slice(&mem[8..8 + len]);
        assert_eq!(load_cdb(&mem, 8), Ok(expected));
        // Just enough, and one byte too few.
        assert_eq!(load_cdb(&mem[..8 + len], 8), Ok(expected));
        assert_eq!(load_cdb(&mem[..8 + len - 1], 8), Err(TcmuError::OutOfBounds));
    }
    for (op, group) in [(0x60u8, 3u8), (0x7f, 3), (0xc0, 6), (0xff, 7)] {
        mem[8] = op;
        assert_eq!(load_cdb(&mem, 8), Err(TcmuError::UnknownCdbGroup(group)));
    }
    assert_eq!(load_cdb(&mem, 64), Err(TcmuError::OutOfBounds));
    assert_eq!(load_cdb(&mem, u64::MAX), Err(TcmuError::OutOfBounds));
}
