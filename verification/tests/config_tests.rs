use mini_sgbd::config::DBConfig;

#[test]
fn config_test_constructeur() {
    let s = String::from("res/dbpath/BinData");
    let ps_test: u32 = 32;
    let dm_max_test: u32 = 64;
    let bm_buffer_count: u32 = 4;
    let bm_policy: String = String::from("LRU");

    let classe = DBConfig::new(s, ps_test, dm_max_test, bm_buffer_count, bm_policy);
    assert_eq!(classe.dbpath, "res/dbpath/BinData");
    assert_eq!(classe.pagesize, 32);
    assert_eq!(classe.dm_maxfilesize, 64);
    assert_eq!(classe.bm_buffer_count, 4);
    assert_eq!(classe.bm_policy, "LRU".to_string());
}

#[test]
fn config_getters_and_set_dbpath() {
    let mut c = DBConfig::new("a".to_string(), 4096, 16384, 2, "MRU".to_string());
    assert_eq!(c.get_dbpath(), "a");
    assert_eq!(c.get_page_size(), 4096);
    assert_eq!(c.get_dm_maxfilesize(), 16384);
    assert_eq!(c.get_bm_buffer_count(), 2);
    c.set_dbpath("b".to_string());
    assert_eq!(c.get_dbpath(), "b");
    assert_eq!(c.bm_policy, "MRU");
    let d = c.duplicate();
    assert_eq!(d.dbpath, "b");
    assert_eq!(d.pagesize, 4096);
}

#[test]
fn config_read_from_json_text() {
    let text = r#"{"dbpath": "res/dbpath", "pagesize": "4096", "dm_maxfilesize": "16384", "bm_buffer_count": "2", "bm_policy": "LRU"}"#;
    let c = DBConfig::load_db_config(text).unwrap();
    assert_eq!(c.dbpath, "res/dbpath");
    assert_eq!(c.pagesize, 4096);
    assert_eq!(c.dm_maxfilesize, 16384);
    assert_eq!(c.bm_buffer_count, 2);
    assert_eq!(c.bm_policy, "LRU");
    let numbers = r#"{"dbpath": "p", "pagesize": 4096, "dm_maxfilesize": "1", "bm_buffer_count": "2", "bm_policy": "LRU"}"#;
    assert!(DBConfig::load_db_config(numbers).is_none());
    let bad = r#"{"dbpath": "p", "pagesize": "-1", "dm_maxfilesize": "1", "bm_buffer_count": "2", "bm_policy": "LRU"}"#;
    assert!(DBConfig::load_db_config(bad).is_none());
    assert!(DBConfig::load_db_config("not json").is_none());
}

#[test]
fn test_load_db_config() {
    let contenu = r#"{
        "dbpath": "res/dbpath/BinData",
        "pagesize": "32",
        "dm_maxfilesize": "64",
        "bm_buffer_count": "4",
        "bm_policy": "LRU"
    }"#;
    let classe = DBConfig::load_db_config(contenu).unwrap();
    assert_eq!(classe.dbpath, "res/dbpath/BinData");
    assert_eq!(classe.pagesize, 32);
    assert_eq!(classe.dm_maxfilesize, 64);
    assert_eq!(classe.bm_buffer_count, 4);
    assert_eq!(classe.bm_policy, "LRU".to_string());
}
