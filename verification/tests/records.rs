use nexora::graph::record::types::{GraphRecordFlag, PackedPtr, RecordCursor};
use nexora::utils::containers::bitsets::BitSet64;

#[test]
fn packed_pointer_gives_back_page_and_slot() {
    let p = PackedPtr::new(0x1234, 7);
    assert_eq!(p.0, 0x1234 << 8 | 7);
    assert_eq!(p.page_id(), 0x1234);
    assert_eq!(p.slot(), 7);
    assert!(!p.is_null());
    assert!(PackedPtr::null().is_null());
    assert!(PackedPtr::new(0xff_ffff_ffff_ffff, 255).is_null());
}

#[test]
fn cursor_moves_to_where_it_is_told() {
    let mut c = RecordCursor::new(PackedPtr::new(3, 1));
    assert!(!c.is_done());
    assert_eq!(c.ptr(), PackedPtr::new(3, 1));
    c.advance_to(PackedPtr::null());
    assert!(c.is_done());
}

#[test]
fn record_flags_decode() {
    assert_eq!(GraphRecordFlag::try_from(0), Ok(GraphRecordFlag::ACTIVE));
    assert_eq!(GraphRecordFlag::try_from(1), Ok(GraphRecordFlag::DELETED));
    assert_eq!(GraphRecordFlag::try_from(2), Ok(GraphRecordFlag::UNCLASSIFIED));
    assert_eq!(GraphRecordFlag::try_from(3), Err(3));
    assert_eq!(GraphRecordFlag::DELETED.to_u8(), 1);
}

#[test]
fn bitset_set_get_clear() {
    let mut b: BitSet64<4> = BitSet64::empty();
    assert_eq!(b.first_set(), None);
    b.set(200);
    b.set(65);
    assert!(b.get(200));
    assert!(b.get(65));
    assert!(!b.get(64));
    assert_eq!(b.first_set(), Some(65));
    b.clear(65);
    assert!(!b.get(65));
    assert_eq!(b.first_set(), Some(200));
}

#[test]
fn bitset_first_set_gives_the_lowest_bit() {
    let mut s: BitSet64<2> = BitSet64::empty();
    s.set(70);
    s.set(5);
    assert_eq!(s.first_set(), Some(5));
    s.clear(5);
    assert_eq!(s.first_set(), Some(70));
}
