use mini_sgbd::catalog_file::CatalogError;
use mini_sgbd::col_info::ColInfo;
use mini_sgbd::config::DBConfig;
use mini_sgbd::db_manager::DBManager;
use mini_sgbd::page::PageId;
use mini_sgbd::relation::Relation;

fn config() -> DBConfig {
    DBConfig::new("res/dbpath".to_string(), 4096, 16384, 4, "LRU".to_string())
}

fn names_and_tables(m: &DBManager) -> Vec<(String, Vec<(String, PageId, Vec<(String, String)>)>)> {
    let mut v: Vec<(String, Vec<(String, PageId, Vec<(String, String)>)>)> = m
        .get_basededonnees()
        .iter()
        .map(|d| {
            (
                d.get_nom().to_string(),
                d.get_relations()
                    .iter()
                    .map(|r| {
                        (
                            r.get_name().to_string(),
                            *r.get_header_page_id(),
                            r.get_columns()
                                .iter()
                                .map(|c| (c.get_name().to_string(), c.get_column_type().to_string()))
                                .collect(),
                        )
                    })
                    .collect(),
            )
        })
        .collect();
    v.sort_by(|a, b| a.0.cmp(&b.0));
    v
}

#[test]
fn save_state_text_then_load_state_text() {
    let mut m = DBManager::new(config());
    m.set_current_data_base("concession");
    m.add_table_to_current_data_base(Relation::new(
        "VOITURE".to_string(),
        vec![ColInfo::new("MARQUE", "VARCHAR(10)"), ColInfo::new("PRIX", "INT")],
        PageId::new(0, 3),
    ));
    m.set_current_data_base("carrefour");
    m.add_table_to_current_data_base(Relation::new(
        "PERSONNE".to_string(),
        vec![ColInfo::new("NOM", "CHAR(10)")],
        PageId::new(1, 0),
    ));
    let text = m.save_state_text();
    let mut loaded = DBManager::new(config());
    assert_eq!(loaded.load_state_text(&text), Ok(()));
    assert_eq!(names_and_tables(&loaded), names_and_tables(&m));
    assert!(loaded.get_bdd_courante().is_none());
}

#[test]
fn load_catalog_text() {
    let mut m = DBManager::new(config());
    let text = r#"{"db": [["T", [0, 1], ["A", "B"], ["INT", "VARCHAR(3)"]]]}"#;
    assert_eq!(m.load_state_text(text), Ok(()));
    assert_eq!(
        names_and_tables(&m),
        vec![(
            "db".to_string(),
            vec![(
                "T".to_string(),
                PageId::new(0, 1),
                vec![("A".to_string(), "INT".to_string()), ("B".to_string(), "VARCHAR(3)".to_string())]
            )]
        )]
    );
}

#[test]
fn load_replaces_a_database_of_the_same_name() {
    let mut m = DBManager::new(config());
    m.set_current_data_base("db");
    m.add_table_to_current_data_base(Relation::new("OLD".to_string(), vec![ColInfo::new("X", "INT")], PageId::new(0, 0)));
    assert_eq!(m.load_state_text(r#"{"db": []}"#), Ok(()));
    assert_eq!(m.get_basededonnees().len(), 1);
    assert!(m.get_basededonnees()[0].get_relations().is_empty());
    assert_eq!(m.get_bdd_courante().unwrap().get_nom(), "db");
}

#[test]
fn load_errors_leave_the_databases() {
    let mut m = DBManager::new(config());
    m.create_data_base("a");
    assert_eq!(m.load_state_text("not json"), Err(CatalogError::NotJson));
    assert_eq!(m.load_state_text(r#"["db"]"#), Err(CatalogError::NotJson));
    assert_eq!(
        m.load_state_text(r#"{"db": [["T", [0, 1], ["A", "B"], ["INT"]]]}"#),
        Err(CatalogError::MissingType)
    );
    assert_eq!(m.get_basededonnees().len(), 1);
    assert_eq!(m.get_basededonnees()[0].get_nom(), "a");
}
