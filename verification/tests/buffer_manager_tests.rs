use mini_sgbd::buffer_manager::{BufferManager, DiskAction};
use mini_sgbd::config::DBConfig;
use mini_sgbd::disk_manager::DiskManager;
use mini_sgbd::page::PageId;

fn pool(count: u32, policy: &str) -> BufferManager {
    let config = DBConfig::new("res/dbpath".to_string(), 8, 64, count, policy.to_string());
    let dm = DiskManager::new(config.duplicate(), &[]);
    BufferManager::new(config, dm, policy.to_string())
}

#[test]
fn test_constructeur_buffer() {
    let bm = pool(2, "LRU");
    assert_eq!(bm.get_liste_buffer().len(), 2);
    assert!(bm.get_liste_pages().is_empty());
    assert_eq!(bm.get_compteur_temps(), 0);
    assert_eq!(bm.get_algo(), "LRU");
    assert_eq!(bm.get_nb_pages_vecteur(), 0);
    assert_eq!(bm.get_db_config().get_page_size(), 8);
    assert_eq!(bm.get_disk_manager().get_dbconfig().get_bm_buffer_count(), 2);
    assert_eq!(bm.frame(1).as_bytes(), &[0u8; 8]);
}

#[test]
fn test_get_page_and_free_page() {
    let mut bm = pool(2, "LRU");
    let p1 = PageId::new(0, 1);
    let (f1, a1) = bm.get_page(&p1);
    assert_eq!(f1, 0);
    assert_eq!(a1, vec![DiskAction::Read { page_id: p1, frame: 0 }]);
    let (f1b, a1b) = bm.get_page(&p1);
    assert_eq!(f1b, 0);
    assert!(a1b.is_empty());
    assert_eq!(bm.get_liste_pages()[0].get_pin_count(), 2);
    bm.free_page(&p1, false);
    bm.free_page(&p1, true);
    assert_eq!(bm.get_liste_pages()[0].get_pin_count(), 0);
    assert!(bm.get_liste_pages()[0].get_dirty());
    assert_eq!(bm.get_compteur_temps(), 2);
}

#[test]
fn lru_and_mru_victims() {
    let (p1, p2, p3) = (PageId::new(0, 1), PageId::new(0, 2), PageId::new(0, 3));
    let mut bm = pool(2, "LRU");
    bm.get_page(&p1);
    bm.get_page(&p2);
    bm.free_page(&p2, false);
    bm.get_page(&p1);
    bm.free_page(&p1, false);
    bm.free_page(&p1, false);
    // p2 was last used before p1: it is the least recently used.
    assert_eq!(bm.lru(), 1);
    let (f, actions) = bm.get_page(&p3);
    assert_eq!(f, 1);
    assert_eq!(actions, vec![DiskAction::Read { page_id: p3, frame: 1 }]);

    let mut bm = pool(2, "MRU");
    bm.get_page(&p1);
    bm.free_page(&p1, false);
    bm.get_page(&p2);
    bm.free_page(&p2, true);
    // p2 was used last and is dirty: its buffer is written first.
    assert_eq!(bm.mru(), 1);
    let (f, actions) = bm.get_page(&p3);
    assert_eq!(f, 1);
    assert_eq!(
        actions,
        vec![DiskAction::Write { page_id: p2, frame: 1 }, DiskAction::Read { page_id: p3, frame: 1 }]
    );
}

#[test]
fn equal_times_pick_the_first_buffer() {
    let (p1, p2, p3) = (PageId::new(0, 1), PageId::new(0, 2), PageId::new(0, 3));
    let mut bm = pool(2, "LRU");
    bm.get_page(&p1);
    bm.get_page(&p2);
    bm.free_page(&p2, false);
    bm.free_page(&p1, true);
    assert_eq!(bm.lru(), 0);
    let (f, actions) = bm.get_page(&p3);
    assert_eq!(f, 0);
    assert_eq!(
        actions,
        vec![DiskAction::Write { page_id: p1, frame: 0 }, DiskAction::Read { page_id: p3, frame: 0 }]
    );
}

#[test]
fn test_flush_buffer() {
    let mut bm = pool(2, "LRU");
    let (p1, p2) = (PageId::new(0, 1), PageId::new(0, 2));
    bm.get_page(&p1);
    bm.get_page(&p2);
    bm.free_page(&p1, true);
    bm.load_frame(1, &[7, 7]);
    assert_eq!(&bm.frame(1).as_bytes()[0..2], &[7, 7]);
    let writes = bm.flush_buffers();
    assert_eq!(writes, vec![DiskAction::Write { page_id: p1, frame: 0 }]);
    assert_eq!(bm.get_nb_pages_vecteur(), 0);
    assert!(!bm.get_liste_pages()[0].get_dirty());
    bm.set_current_replacement_policy("MRU".to_string());
    assert_eq!(bm.get_algo(), "MRU");
}
