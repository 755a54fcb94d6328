use mini_sgbd::config::DBConfig;
use mini_sgbd::disk_manager::DiskManager;
use mini_sgbd::page::PageId;

fn config() -> DBConfig {
    DBConfig::new("res/dbpath/BinData".to_string(), 32, 64, 4, "LRU".to_string())
}

#[test]
fn disk_manager_test_constructeur() {
    let dm = DiskManager::new(config(), &[]);
    assert_eq!(dm.get_dbconfig().get_dbpath(), "res/dbpath/BinData");
    assert!(dm.free_pages.is_empty());
}

#[test]
fn disk_manager_test_dealloc_page() {
    let mut dm = DiskManager::new(config(), &[]);
    let page_id = PageId::new(0, 0);
    dm.dealloc_page(page_id);
    let expected_page_id = PageId::new(0, 0);
    assert!(dm.free_pages.contains(&expected_page_id));
}

#[test]
#[allow(non_snake_case)]
fn DiskManager_test_dealloc_page() {
    let mut dm = DiskManager::new(config(), &[]);
    assert!(dm.dealloc_page(PageId::new(995, 0)));
    assert!(!dm.dealloc_page(PageId::new(995, 0)));
    assert!(dm.free_pages.contains(&PageId::new(995, 0)));
    assert_eq!(dm.free_pages.len(), 1);
}

#[test]
fn disk_manager_test_save_state() {
    let mut dm = DiskManager::new(config(), &[]);
    dm.dealloc_page(PageId::new(999, 0));
    let saved = dm.save_state();
    assert_eq!(saved, vec![0xE7, 0x03, 0, 0, 0, 0, 0, 0]);
    let dm2 = DiskManager::new(config(), &saved);
    assert!(dm2.free_pages.contains(&PageId::new(999, 0)));
}

#[test]
fn free_list_round_trip_keeps_order() {
    let mut dm = DiskManager::new(config(), &[]);
    dm.dealloc_page(PageId::new(1, 2));
    dm.dealloc_page(PageId::new(3, 4));
    let saved = dm.save_state();
    let dm2 = DiskManager::new(config(), &saved);
    assert_eq!(dm2.free_pages, vec![PageId::new(1, 2), PageId::new(3, 4)]);
    let mut with_tail = saved.clone();
    with_tail.extend_from_slice(&[9, 9, 9]);
    let dm3 = DiskManager::new(config(), &with_tail);
    assert_eq!(dm3.free_pages, vec![PageId::new(1, 2), PageId::new(3, 4)]);
}

#[test]
fn take_free_page_and_placement() {
    let mut dm = DiskManager::new(config(), &[]);
    dm.dealloc_page(PageId::new(1, 2));
    dm.dealloc_page(PageId::new(3, 4));
    let saved = dm.save_state();
    let mut dm2 = DiskManager::new(config(), &[]);
    assert_eq!(dm2.take_free_page(&saved), Some(PageId::new(3, 4)));
    assert_eq!(dm2.free_pages, vec![PageId::new(1, 2)]);
    assert_eq!(dm2.take_free_page(&[]), None);
    assert_eq!(dm2.page_in_file(0, 32), Some(PageId::new(0, 1)));
    assert_eq!(dm2.page_in_file(0, 64), None);
    assert_eq!(dm2.fresh_page(), vec![0xFF; 32]);
}

#[test]
fn disk_manager_test_load_state() {
    let mut dm = DiskManager::new(config(), &[]);
    dm.dealloc_page(PageId::new(999, 0));
    let saved = dm.save_state();
    let mut dm2 = DiskManager::new(config(), &[]);
    dm2.load_state(&saved);
    dm2.load_state(&saved);
    assert_eq!(dm2.free_pages, vec![PageId::new(999, 0), PageId::new(999, 0)]);
}

#[test]
#[allow(non_snake_case)]
fn DiskManager_test_constructeur() {
    let config = DBConfig::new("./src/dbpath/BinData".to_string(), 32, 64, 4, "LRU".to_string());
    let dm = DiskManager::new(config, &[]);
    assert_eq!(dm.get_dbconfig().get_dbpath(), "./src/dbpath/BinData");
}

#[test]
#[allow(non_snake_case)]
fn DiskManager_test_save_state() {
    let mut dm = DiskManager::new(config(), &[]);
    dm.dealloc_page(PageId::new(999, 0));
    let saved = dm.save_state();
    let dm2 = DiskManager::new(config(), &saved);
    assert!(dm2.free_pages.contains(&PageId::new(999, 0)));
}
