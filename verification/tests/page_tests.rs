use mini_sgbd::relation_pages::{insert_step, InsertAction};
use mini_sgbd::basic;
use mini_sgbd::page::{PageId, PageInfo, RecordId};

#[test]
fn page_test_constructeur() {
    let f_test: u32 = 1;
    let p_test: u32 = 3;

    let classe = PageId::new(f_test, p_test);
    assert_eq!(classe.file_idx, 1);
    assert_eq!(classe.page_idx, 3);
}

#[test]
fn test_constructeur() {
    let f_test: u32 = 1;
    let p_test: u32 = 3;

    let classe = basic::PageId::new(f_test, p_test);
    assert_eq!(classe.FileIdx, 1);
    assert_eq!(classe.PageIdx, 3);
}

#[test]
fn page_getters() {
    let p = PageId::new(7, 9);
    assert_eq!(p.get_file_idx(), 7);
    assert_eq!(p.get_page_idx(), 9);
    let b = basic::PageId::new(7, 9);
    assert_eq!(b.get_FileIdx(), 7);
    assert_eq!(b.get_PageIdx(), 9);
}

#[test]
fn record_id_getters() {
    let r = RecordId::new(PageId::new(2, 5), 11);
    assert_eq!(*r.get_page_id(), PageId::new(2, 5));
    assert_eq!(*r.get_slot_idx(), 11);
}

#[test]
fn page_info_setters() {
    let mut i = PageInfo::new(PageId::new(1, 2), 0, false, 0);
    assert_eq!(i.get_file_id(), 1);
    assert_eq!(i.get_page_id(), 2);
    i.set_pin_count(3);
    i.set_dirty_bit(true);
    i.set_time(42);
    assert_eq!(i.get_pin_count(), 3);
    assert!(i.get_dirty());
    assert_eq!(i.get_time(), 42);
    assert_eq!(i.page(), PageId::new(1, 2));

    let mut b = basic::PageInfo::new(1, 2, 0, 0, 0);
    b.set_file_id(4);
    b.set_page_id(5);
    b.set_pin_count(1);
    b.set_dirty_bit(1);
    b.set_time(8);
    assert_eq!(b.get_file_id(), 4);
    assert_eq!(b.get_page_id(), 5);
    assert_eq!(b.get_pin_count(), 1);
    assert_eq!(b.get_dirty(), 1);
    assert_eq!(b.get_time(), 8);
    assert_eq!(basic::get_lru(), "LRU");
    assert_eq!(basic::get_mru(), "MRU");
}

#[test]
fn insert_steps() {
    let p = PageId::new(0, 3);
    assert_eq!(insert_step(Some(p), false), Some(InsertAction::WriteTo(p)));
    assert_eq!(insert_step(Some(p), true), Some(InsertAction::WriteTo(p)));
    assert_eq!(insert_step(None, false), Some(InsertAction::AddDataPage));
    assert_eq!(insert_step(None, true), None);
}
