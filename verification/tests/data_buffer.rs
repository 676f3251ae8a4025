use tcmu_mem::data_buffer::DataBuffer;
use tcmu_mem::error::TcmuError;
use tcmu_mem::tcmu::CmdEntry;

/// A region of `size` bytes with an entry at its start that has the given buffers.
fn region(size: usize, iov: &[(u64, u64)]) -> (Vec<u8>, CmdEntry) {
    let mut mem = vec![0u8; size];
    mem[8..12].copy_from_slice(&(iov.len() as u32).to_le_bytes());
    for (k, (base, len)) in iov.iter().enumerate() {
        mem[48 + 16 * k..56 + 16 * k].copy_from_slice(&base.to_le_bytes());
        mem[56 + 16 * k..64 + 16 * k].copy_from_slice(&len.to_le_bytes());
    }
    let ent = CmdEntry::load(&mem, 0).unwrap();
    (mem, ent)
}

#[test]
fn write_spreads_over_buffers() {
    let (mut mem, ent) = region(256, &[(200, 3), (220, 0), (150, 4)]);
    let mut b = DataBuffer::new(&ent, &mem).unwrap();
    assert_eq!(b.write(&mut mem, &[1, 2]), Ok(2));
    assert_eq!(b.write(&mut mem, &[3, 4, 5]), Ok(3));
    assert_eq!(b.write(&mut mem, &[6, 7, 8, 9]), Ok(2));
    assert_eq!(b.write(&mut mem, &[10]), Ok(0));
    assert_eq!(&mem[199..204], &[0, 1, 2, 3, 0]);
    assert_eq!(&mem[149..155], &[0, 4, 5, 6, 7, 0]);
}

#[test]
fn two_writes_are_one() {
    let iov = [(200u64, 3u64), (150, 4)];
    let (mut mem1, ent) = region(256, &iov);
    let mut mem2 = mem1.clone();
    let mut b = DataBuffer::new(&ent, &mem1).unwrap();
    b.write(&mut mem1, &[1, 2, 3, 4, 5]).unwrap();
    b.write(&mut mem1, &[6, 7, 8]).unwrap();
    let mut b = DataBuffer::new(&ent, &mem2).unwrap();
    assert_eq!(b.write(&mut mem2, &[1, 2, 3, 4, 5, 6, 7, 8]), Ok(7));
    assert_eq!(mem1, mem2);
}

#[test]
fn written_data_are_read_back() {
    let (mut mem, ent) = region(256, &[(200, 3), (150, 2), (120, 5)]);
    let mut b = DataBuffer::new(&ent, &mem).unwrap();
    assert_eq!(b.write(&mut mem, b"hello world"), Ok(10));
    let mut b = DataBuffer::new(&ent, &mem).unwrap();
    let mut out = [0xffu8; 12];
    assert_eq!(b.read(&mem, &mut out), Ok(10));
    assert_eq!(&out, b"hello worl\xff\xff");
}

#[test]
fn two_reads_are_one() {
    let (mut mem, ent) = region(256, &[(200, 3), (150, 4)]);
    mem[200..203].copy_from_slice(&[1, 2, 3]);
    mem[150..154].copy_from_slice(&[4, 5, 6, 7]);
    let mut b = DataBuffer::new(&ent, &mem).unwrap();
    let mut first = [0u8; 4];
    let mut second = [0u8; 4];
    assert_eq!(b.read(&mem, &mut first), Ok(4));
    assert_eq!(b.read(&mem, &mut second), Ok(3));
    assert_eq!(first, [1, 2, 3, 4]);
    assert_eq!(second, [5, 6, 7, 0]);
}

#[test]
fn later_bytes_win_where_buffers_overlap() {
    let (mut mem, ent) = region(256, &[(200, 3), (201, 3)]);
    let mut b = DataBuffer::new(&ent, &mem).unwrap();
    assert_eq!(b.write(&mut mem, &[1, 2, 3, 4, 5, 6]), Ok(6));
    assert_eq!(&mem[200..205], &[1, 4, 5, 6, 0]);
}

#[test]
fn buffers_outside_the_region_are_refused() {
    let (mut mem, ent) = region(256, &[(200, 3), (254, 4), (u64::MAX, u64::MAX)]);
    let before = mem.clone();
    let mut b = DataBuffer::new(&ent, &mem).unwrap();
    assert_eq!(b.write(&mut mem, &[1; 6]), Err(TcmuError::OutOfBounds));
    assert_eq!(mem, before);
    let mut out = [9u8; 6];
    assert_eq!(b.read(&mem, &mut out), Err(TcmuError::OutOfBounds));
    assert_eq!(out, [9u8; 6]);
    // What lies inside can still be reached.
    assert_eq!(b.write(&mut mem, &[1; 5]), Ok(5));
    assert_eq!(&mem[254..256], &[1, 1]);
    assert_eq!(b.write(&mut mem, &[]), Ok(0));
    assert_eq!(b.write(&mut mem, &[1]), Err(TcmuError::OutOfBounds));
}

#[test]
fn huge_offset_is_refused() {
    let (mut mem, ent) = region(256, &[(u64::MAX, u64::MAX)]);
    let mut b = DataBuffer::new(&ent, &mem).unwrap();
    assert_eq!(b.write(&mut mem, &[1]), Err(TcmuError::OutOfBounds));
}

#[test]
fn table_of_buffers_must_fit() {
    let (mem, mut ent) = region(128, &[]);
    ent.iov_cnt = 5;
    assert!(DataBuffer::new(&ent, &mem).is_ok());
    ent.iov_cnt = 6;
    assert!(matches!(DataBuffer::new(&ent, &mem), Err(TcmuError::OutOfBounds)));
    ent.iov_cnt = u32::MAX;
    assert!(matches!(DataBuffer::new(&ent, &mem), Err(TcmuError::OutOfBounds)));
    ent.iov_cnt = 0;
    ent.off = 81;
    assert!(matches!(DataBuffer::new(&ent, &mem), Err(TcmuError::OutOfBounds)));
}

#[test]
fn no_buffers_take_nothing() {
    let (mut mem, ent) = region(112, &[]);
    let mut b = DataBuffer::new(&ent, &mem).unwrap();
    assert_eq!(b.write(&mut mem, &[1, 2, 3]), Ok(0));
}

#[test]
fn empty_moves_keep_the_place() {
    let (mut mem, ent) = region(256, &[(200, 3), (150, 4)]);
    let mut b = DataBuffer::new(&ent, &mem).unwrap();
    assert_eq!(b.write(&mut mem, &[1, 2, 3, 4]), Ok(4));
    assert_eq!(b.write(&mut mem, &[]), Ok(0));
    assert_eq!(b.read(&mem, &mut []), Ok(0));
    assert_eq!(b.write(&mut mem, &[5]), Ok(1));
    assert_eq!(&mem[200..203], &[1, 2, 3]);
    assert_eq!(&mem[150..154], &[4, 5, 0, 0]);
}
