use system_info::mem;

#[test]
fn should_get_system_mem() {
    let mem = mem::SystemMemory::new();
    println!("total={}, avail={}", mem.total, mem.avail);
    assert_ne!(mem.total, 0);
    assert_ne!(mem.avail, 0);
}

#[test]
fn memory_is_pages_times_page_size() {
    let m = mem::SystemMemory::from_pages(Some(1000), Some(250), Some(4096));
    assert_eq!(m.total, 4_096_000);
    assert_eq!(m.avail, 1_024_000);
}

#[test]
fn memory_saturates() {
    let m = mem::SystemMemory::from_pages(Some(i64::MAX), Some(3), Some(i64::MAX));
    assert_eq!(m.total, u64::MAX);
    assert_eq!(m.avail, u64::MAX);
    let m = mem::SystemMemory::from_pages(Some(2), Some(1), Some(i64::MAX));
    assert_eq!(m.total, 2 * (i64::MAX as u64));
    assert_eq!(m.avail, i64::MAX as u64);
}

#[test]
fn memory_missing_value_gives_zero() {
    let m = mem::SystemMemory::from_pages(Some(10), None, Some(4096));
    assert_eq!((m.total, m.avail), (0, 0));
    let m = mem::SystemMemory::from_pages(Some(10), Some(5), Some(-1));
    assert_eq!((m.total, m.avail), (0, 0));
}
