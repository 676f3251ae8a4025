use tcmu_mem::bytes::{get_be16, get_be32, get_be64, get_le32, get_le64, push_be32, push_be64};
use tcmu_mem::error::TcmuError;
use tcmu_mem::tcmu::funcs::{tcmu_hdr_get_len, tcmu_hdr_get_op};
use tcmu_mem::tcmu::{CmdEntry, IoVec};

#[test]
fn header_word_splits() {
    assert_eq!(tcmu_hdr_get_op(0x71), 1);
    assert_eq!(tcmu_hdr_get_len(0x71), 0x70);
    assert_eq!(tcmu_hdr_get_op(0xffff_ffff), 7);
    assert_eq!(tcmu_hdr_get_len(0xffff_ffff), 0xffff_fff8);
    assert_eq!(tcmu_hdr_get_op(0), 0);
    assert_eq!(tcmu_hdr_get_len(7), 0);
}

#[test]
fn integers_are_read() {
    let s: Vec<u8> = (1..=9).collect();
    assert_eq!(get_le32(&s, 0), 0x0403_0201);
    assert_eq!(get_le64(&s, 1), 0x0908_0706_0504_0302);
    assert_eq!(get_be16(&s, 0), 0x0102);
    assert_eq!(get_be32(&s, 1), 0x0203_0405);
    assert_eq!(get_be64(&s, 1), 0x0203_0405_0607_0809);
}

#[test]
fn big_endian_reads_back() {
    let mut out = vec![0xaa];
    push_be32(&mut out, 0xdead_beef);
    push_be64(&mut out, 0x0123_4567_89ab_cdef);
    assert_eq!(
        out,
        vec![0xaa, 0xde, 0xad, 0xbe, 0xef, 1, 0x23, 0x45, 0x67, 0x89, 0xab, 0xcd, 0xef]
    );
    assert_eq!(get_be32(&out, 1), 0xdead_beef);
    assert_eq!(get_be64(&out, 5), 0x0123_4567_89ab_cdef);
}

#[test]
fn entry_is_copied() {
    let mem: Vec<u8> = (0..120).collect();
    let ent = CmdEntry::load(&mem, 8).unwrap();
    assert_eq!(ent.off, 8);
    assert_eq!(ent.len_op, 0x0b0a_0908);
    assert_eq!(ent.iov_cnt, 0x1312_1110);
    assert_eq!(ent.cdb_off, 0x2726_2524_2322_2120);
    assert_eq!(ent.scsi_status, 16);
    assert_eq!(ent.sense_buffer[0], 24);
    assert_eq!(ent.sense_buffer[95], 119);
    assert!(matches!(CmdEntry::load(&mem, 9), Err(TcmuError::OutOfBounds)));
    assert!(matches!(CmdEntry::load(&mem[..111], 0), Err(TcmuError::OutOfBounds)));
}

#[test]
fn sense_is_stored() {
    let mut mem = vec![0x11u8; 130];
    let mut ent = CmdEntry::load(&mem, 8).unwrap();
    ent.scsi_status = 2;
    ent.sense_buffer = [0x22; 96];
    ent.store_sense(&mut mem);
    for (i, &b) in mem.iter().enumerate() {
        let expected = if i == 16 {
            2
        } else if i >= 24 && i < 120 {
            0x22
        } else {
            0x11
        };
        assert_eq!(b, expected, "byte {}", i);
    }
}

#[test]
fn iovec_is_read() {
    let mut mem = vec![0u8; 20];
    mem[4] = 0x10;
    mem[13] = 0x2;
    assert_eq!(IoVec::load(&mem, 4), IoVec { iov_base: 0x10, iov_len: 0x200 });
}
