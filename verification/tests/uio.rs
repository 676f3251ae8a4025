use tcmu_mem::uio::{check_uio, get_mmap_size, Action, Idle};

#[test]
fn device_names() {
    assert!(check_uio(b"tcm-user/1/disk/path\n"));
    assert!(check_uio(b"tcm-user"));
    assert!(!check_uio(b"tcm-use"));
    assert!(!check_uio(b"tcm-usar/1"));
    assert!(!check_uio(b" tcm-user"));
    assert!(!check_uio(b""));
}

#[test]
fn map_sizes() {
    assert_eq!(get_mmap_size(b"0x0000000040800000\n"), Some(0x4080_0000));
    assert_eq!(get_mmap_size(b"0x10\n"), Some(16));
    assert_eq!(get_mmap_size(b"0xaF\n"), Some(0xaf));
    assert_eq!(get_mmap_size(b"0x+1f\n"), Some(0x1f));
    assert_eq!(get_mmap_size(b"0xffffffffffffffff\n"), Some(usize::MAX));
    assert_eq!(get_mmap_size(b"0x000ffffffffffffffff\n"), Some(usize::MAX));
    // The prefix and the last character are not looked at.
    assert_eq!(get_mmap_size(b"??123"), Some(0x12));
}

#[test]
fn lines_without_a_size() {
    for line in [
        "", "0", "0x", "0x\n", "0x+\n", "0x-1\n", "0x++1\n", "0xg\n", "0x1 \n", "0x 1\n",
        "0x10000000000000000\n", "0xfffffffffffffffff\n", "0x1_0\n",
    ] {
        assert_eq!(get_mmap_size(line.as_bytes()), None, "{:?}", line);
    }
}

#[test]
fn waits_after_a_hundred_empty_looks() {
    let mut idle = Idle::new();
    for _ in 0..2 {
        for _ in 0..100 {
            assert_eq!(idle.looked(0), Action::Spin);
        }
        assert_eq!(idle.looked(0), Action::Wait);
    }
    for _ in 0..50 {
        assert_eq!(idle.looked(0), Action::Spin);
    }
    assert_eq!(idle.looked(3), Action::Notify);
    for _ in 0..100 {
        assert_eq!(idle.looked(0), Action::Spin);
    }
    assert_eq!(idle.looked(0), Action::Wait);
}

#[test]
fn waits_once_in_each_round() {
    let mut idle = Idle::new();
    for look in 1..=505 {
        let expected = if look % 101 == 0 { Action::Wait } else { Action::Spin };
        assert_eq!(idle.looked(0), expected, "look {}", look);
    }
}
