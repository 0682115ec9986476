use vec2::layout::Vec2Layout;
use vec2::CapacityOverflow;

#[test]
fn test_layout_for() {
    let l = Vec2Layout::<[u8; 3], u32>::new(1);
    assert_eq!(l.offset_of_bbb, 4);
    assert_eq!(l.size, 8);
    assert_eq!(l.align, 4);
}

#[test]
fn layout_packs_columns_back_to_back() {
    // 100 pairs of (u16, u64): 200 bytes of A, padded to 8, then 800 of B.
    let l = Vec2Layout::<u16, u64>::new(100);
    assert_eq!(l.offset_of_bbb, 200);
    assert_eq!(l.size, 1000);
    assert_eq!(l.align, 8);
}

#[test]
fn layout_checked_reports_overflow() {
    let r = Vec2Layout::<u64, u64>::new_checked(usize::MAX / 8);
    assert_eq!(r, Err(CapacityOverflow));
    let ok = Vec2Layout::<u64, u64>::new_checked(8);
    assert!(ok.is_ok());
}
