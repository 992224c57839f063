//! Page handles: address round trip and page filling.

use kfs::page::{Page, RawPage, PGSIZE};

#[test]
fn page_address_round_trip() {
    let p = Page::from_usize(0x8000_1000);
    assert_eq!(p.addr().value, 0x8000_1000);
    let a = p.into_usize();
    assert_eq!(a, 0x8000_1000);
    let p2 = Page::from_usize(a);
    assert_eq!(p2.into_usize(), 0x8000_1000);
}

#[test]
fn raw_page_fill() {
    let mut rp = RawPage::zeroed();
    assert_eq!(rp.get(0), 0);
    assert_eq!(rp.get(PGSIZE - 1), 0);
    rp.write_bytes(0xA5);
    assert_eq!(rp.get(0), 0xA5);
    assert_eq!(rp.get(2048), 0xA5);
    assert_eq!(rp.get(PGSIZE - 1), 0xA5);
}
