use mini_sgbd::col_info::ColInfo;
use mini_sgbd::config::DBConfig;
use mini_sgbd::data_base::Database;
use mini_sgbd::db_manager::DBManager;
use mini_sgbd::page::PageId;
use mini_sgbd::relation::Relation;

fn config() -> DBConfig {
    DBConfig::new("res/dbpath".to_string(), 4096, 16384, 4, "LRU".to_string())
}

fn relation(name: &str, page: u32) -> Relation {
    Relation::new(
        name.to_string(),
        vec![ColInfo::new("NOM", "CHAR(10)"), ColInfo::new("AGE", "INT")],
        PageId::new(0, page),
    )
}

#[test]
fn database_relations() {
    let mut d = Database::new("carrefour".to_string());
    assert_eq!(d.get_nom(), "carrefour");
    d.add_relation(relation("A", 0));
    d.add_relation(relation("B", 1));
    d.add_relation(relation("C", 2));
    d.remove_relation("A");
    let names: Vec<&str> = d.get_relations().iter().map(|r| r.get_name().as_str()).collect();
    assert_eq!(names, vec!["C", "B"]);
    d.remove_relation("Z");
    assert_eq!(d.get_relations().len(), 2);
    d.get_relations_mut().clear();
    assert!(d.get_relations().is_empty());
    d.set_relations(vec![relation("D", 3)]);
    assert_eq!(d.get_relations()[0].get_name(), "D");
}

#[test]
fn test_bdd_courante() {
    let mut db_manager = DBManager::new(config());
    assert!(db_manager.get_bdd_courante().is_none());
    db_manager.create_data_base("carrefour");
    db_manager.set_current_data_base("carrefour");
    db_manager.add_table_to_current_data_base(relation("PERSONNE", 1));
    db_manager.add_table_to_current_data_base(relation("EMPLOI", 2));
    assert_eq!(
        db_manager.list_databases(),
        vec![
            "Affichage des bases de données : ".to_string(),
            "Base de données courante : carrefour".to_string(),
            "Base de données : carrefour".to_string(),
        ]
    );
    assert_eq!(
        db_manager.list_tables_in_current_data_base(),
        vec![
            "Table : PERSONNE, colonnes : ".to_string(),
            "nom : NOM, type : CHAR(10)".to_string(),
            "nom : AGE, type : INT".to_string(),
            "Table : EMPLOI, colonnes : ".to_string(),
            "nom : NOM, type : CHAR(10)".to_string(),
            "nom : AGE, type : INT".to_string(),
        ]
    );
    db_manager.set_current_data_base("concession");
    assert_eq!(db_manager.get_bdd_courante().unwrap().get_nom(), "concession");
    assert_eq!(db_manager.get_basededonnees().len(), 2);
    assert!(db_manager.get_table_from_current_data_base("PERSONNE").is_none());
}

#[test]
fn create_existing_database_empties_it() {
    let mut m = DBManager::new(config());
    m.set_current_data_base("a");
    m.add_table_to_current_data_base(relation("T", 1));
    m.create_data_base("a");
    assert_eq!(m.get_basededonnees().len(), 1);
    assert!(m.get_basededonnees()[0].get_relations().is_empty());
}

#[test]
fn table_lookup_and_removal() {
    let mut m = DBManager::new(config());
    m.set_current_data_base("a");
    m.add_table_to_current_data_base(relation("T", 1));
    m.add_table_to_current_data_base(relation("T", 2));
    let t = m.get_table_from_current_data_base("T").unwrap();
    assert_eq!(*t.get_header_page_id(), PageId::new(0, 2));
    m.remove_table_from_current_data_base("T");
    let t = m.get_table_from_current_data_base("T").unwrap();
    assert_eq!(*t.get_header_page_id(), PageId::new(0, 2));
    m.remove_tables_from_current_data_base();
    assert!(m.get_table_from_current_data_base("T").is_none());
}

#[test]
fn remove_other_database_and_all() {
    let mut m = DBManager::new(config());
    m.create_data_base("x");
    m.set_current_data_base("y");
    m.remove_data_base("x");
    assert_eq!(m.get_basededonnees().len(), 1);
    assert_eq!(m.get_bdd_courante().unwrap().get_nom(), "y");
    m.remove_data_base("absent");
    assert_eq!(m.get_basededonnees().len(), 1);
    m.remove_data_bases();
    assert!(m.get_basededonnees().is_empty());
    assert!(m.get_bdd_courante().is_none());
    assert_eq!(m.get_dbconfig().get_page_size(), 4096);
}

#[test]
fn test_save_state_and_load_state() {
    let mut m = DBManager::new(config());
    m.set_current_data_base("carrefour");
    m.add_table_to_current_data_base(relation("PERSONNE", 1));
    m.set_current_data_base("concession");
    m.add_table_to_current_data_base(relation("VOITURE", 3));
    let saved = m.save_state();
    assert_eq!(saved.len(), 2);
    assert_eq!(saved[0].name, "carrefour");
    assert_eq!(saved[0].relations[0].name, "PERSONNE");
    assert_eq!((saved[0].relations[0].file_idx, saved[0].relations[0].page_idx), (0, 1));
    assert_eq!(saved[0].relations[0].colonnes, vec!["NOM".to_string(), "AGE".to_string()]);
    assert_eq!(saved[0].relations[0].types, vec!["CHAR(10)".to_string(), "INT".to_string()]);

    let mut n = DBManager::new(config());
    n.load_state(&saved);
    n.set_current_data_base("concession");
    let t = n.get_table_from_current_data_base("VOITURE").unwrap();
    assert_eq!(*t.get_header_page_id(), PageId::new(0, 3));
    assert_eq!(t.get_columns()[1].get_column_type(), "INT");
    let again = n.save_state();
    assert_eq!(again.len(), 2);
    assert_eq!(again[1].relations[0].name, "VOITURE");
}

#[test]
fn list_databases_without_current() {
    let mut m = DBManager::new(config());
    m.create_data_base("a");
    m.create_data_base("b");
    assert_eq!(
        m.list_databases(),
        vec![
            "Affichage des bases de données : ".to_string(),
            "Base de données : a".to_string(),
            "Base de données : b".to_string(),
        ]
    );
}

#[test]
fn remove_current_database() {
    let mut m = DBManager::new(config());
    m.create_data_base("a");
    m.set_current_data_base("b");
    m.remove_data_base("b");
    assert!(m.get_bdd_courante().is_none());
    assert_eq!(m.get_basededonnees().len(), 1);
    assert_eq!(m.get_basededonnees()[0].get_nom(), "a");
    m.remove_data_base("a");
    assert!(m.get_basededonnees().is_empty());
}
