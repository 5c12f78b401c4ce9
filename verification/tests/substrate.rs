use stable_structures::Memory;
use stable_structures::RestrictedMemory;
use stable_structures::VectorMemory;
use stable_structures::GrowFailed;
use stable_structures::copy;
use stable_structures::read_u32;
use stable_structures::read_u64;
use stable_structures::safe_write;
use stable_structures::write_u32;
use stable_structures::write_u64;
use stable_structures::types::Address;
use stable_structures::types::Bytes;

fn read_vec<M: Memory>(m: &M, offset: u64, len: usize) -> Vec<u8> {
    let mut buf = vec![0u8; len];
    m.read(offset, &mut buf);
    buf
}

#[test]
fn auto_grow_on_first_write() {
    let mut m = VectorMemory::new();
    assert_eq!(m.size(), 0);
    assert_eq!(safe_write(&mut m, 100, &[0xAA, 0xBB]), Ok(()));
    assert_eq!(m.size(), 1);
    let page = read_vec(&m, 0, 65536);
    assert_eq!(page[100], 0xAA);
    assert_eq!(page[101], 0xBB);
    assert!(page[..100].iter().all(|&b| b == 0));
    assert!(page[102..].iter().all(|&b| b == 0));
}

#[test]
fn cross_page_write() {
    let mut m = VectorMemory::new();
    assert_eq!(m.grow(1), 0);
    assert_eq!(m.size(), 1);
    assert_eq!(safe_write(&mut m, 65_530, &[1, 2, 3, 4, 5, 6, 7, 8, 9, 10]), Ok(()));
    assert_eq!(m.size(), 2);
    assert_eq!(read_vec(&m, 65_530, 10), vec![1, 2, 3, 4, 5, 6, 7, 8, 9, 10]);
}

#[test]
fn grow_is_zero_extension() {
    let mut m = VectorMemory::new();
    assert_eq!(m.grow(2), 0);
    assert_eq!(m.size(), 2);
    assert!(read_vec(&m, 0, 2 * 65536).iter().all(|&b| b == 0));
    assert_eq!(m.grow(1), 2);
    assert_eq!(m.size(), 3);
    assert!(read_vec(&m, 2 * 65536, 65536).iter().all(|&b| b == 0));
}

#[test]
fn write_persists_until_overwritten() {
    let mut m = VectorMemory::new();
    stable_structures::write(&mut m, 10, &[7, 8, 9]);
    assert_eq!(read_vec(&m, 10, 3), vec![7, 8, 9]);
    stable_structures::write(&mut m, 11, &[42]);
    assert_eq!(read_vec(&m, 10, 3), vec![7, 42, 9]);
}

#[test]
fn restricted_view_growth() {
    let inner = VectorMemory::new();
    let mut r = RestrictedMemory::new(inner, 2..5);
    assert_eq!(r.size(), 0);
    assert_eq!(r.grow(1), 0);
    assert_eq!(r.size(), 1);
    assert_eq!(r.inner_ref().size(), 3);
    assert_eq!(r.grow(5), -1);
    assert_eq!(r.size(), 1);
    assert_eq!(r.inner_ref().size(), 3);
}

#[test]
fn restricted_view_never_grows_inner_past_end() {
    let inner = VectorMemory::new();
    let mut r = RestrictedMemory::new(inner, 2..5);
    assert_eq!(r.grow(4), -1);
    assert_eq!(r.size(), 0);
    assert_eq!(r.inner_ref().size(), 0);
}

#[test]
fn default_backing_starts_empty() {
    let mut m = stable_structures::DefaultMemoryImpl::default();
    assert_eq!(m.size(), 0);
    assert_eq!(m.grow(1), 0);
    assert_eq!(m.size(), 1);
}

#[test]
fn restricted_view_full_region() {
    let mut inner = VectorMemory::new();
    assert_eq!(inner.grow(5), 0);
    let mut r = RestrictedMemory::new(inner, 1..3);
    assert_eq!(r.size(), 2);
    assert_eq!(r.grow(0), 2);
    assert_eq!(r.grow(1), -1);
    assert_eq!(r.size(), 2);
}

#[test]
fn restricted_view_transparency() {
    let mut inner = VectorMemory::new();
    assert_eq!(inner.grow(3), 0);
    let mut r = RestrictedMemory::new(inner, 1..3);
    r.write(10, &[1, 2, 3]);
    assert_eq!(read_vec(&r, 10, 3), vec![1, 2, 3]);
    assert_eq!(read_vec(r.inner_ref(), 65536 + 10, 3), vec![1, 2, 3]);
}

#[test]
fn grow_failed_is_returned_not_raised() {
    let inner = VectorMemory::new();
    let mut r = RestrictedMemory::new(inner, 0..2);
    let res = safe_write(&mut r, 3 * 65536, &[0]);
    assert_eq!(res, Err(GrowFailed { current_size: 0, delta: 4 }));
    assert_eq!(r.size(), 0);
}

#[test]
fn overlapping_forward_copy() {
    let mut m = VectorMemory::new();
    assert_eq!(safe_write(&mut m, 0, &[1, 2, 3, 4, 5]), Ok(()));
    copy(&mut m, Address::new(0), Address::new(2), 5, 1);
    assert_eq!(read_vec(&m, 0, 7), vec![1, 2, 1, 2, 3, 4, 5]);
}

#[test]
fn overlapping_backward_copy() {
    let mut m = VectorMemory::new();
    assert_eq!(safe_write(&mut m, 2, &[1, 2, 3, 4, 5]), Ok(()));
    copy(&mut m, Address::new(2), Address::new(0), 5, 1);
    assert_eq!(read_vec(&m, 0, 7), vec![1, 2, 3, 4, 5, 4, 5]);
}

#[test]
fn copy_in_chunks() {
    let mut m = VectorMemory::new();
    assert_eq!(safe_write(&mut m, 0, &[1, 2, 3, 4, 5, 6]), Ok(()));
    copy(&mut m, Address::new(0), Address::new(100), 3, 2);
    assert_eq!(read_vec(&m, 100, 6), vec![1, 2, 3, 4, 5, 6]);
}

#[test]
fn u32_helper_round_trip() {
    let mut m = VectorMemory::new();
    write_u32(&mut m, Address::new(16), 0xDDCC_BBAA);
    assert_eq!(read_vec(&m, 16, 4), vec![0xAA, 0xBB, 0xCC, 0xDD]);
    assert_eq!(read_u32(&m, Address::new(16)), 0xDDCC_BBAA);
}

#[test]
fn u64_helper_round_trip() {
    let mut m = VectorMemory::new();
    write_u64(&mut m, Address::new(24), 0x1122_3344_5566_7788);
    assert_eq!(read_vec(&m, 24, 8), vec![0x88, 0x77, 0x66, 0x55, 0x44, 0x33, 0x22, 0x11]);
    assert_eq!(read_u64(&m, Address::new(24)), 0x1122_3344_5566_7788);
}

#[test]
fn safe_write_covers_requested_range() {
    let mut m = VectorMemory::new();
    assert_eq!(safe_write(&mut m, 10 * 65536 + 1, &[9]), Ok(()));
    assert_eq!(m.size(), 11);
    assert_eq!(read_vec(&m, 10 * 65536 + 1, 1), vec![9]);
}

#[test]
fn address_and_bytes_arithmetic() {
    let a = Address::new(100);
    assert_eq!(a.get(), 100);
    let b = Bytes::new(36);
    assert_eq!(a.offset(b).get(), 136);
    assert_eq!(Bytes::from_pages(2).get(), 2 * 65536);
}
