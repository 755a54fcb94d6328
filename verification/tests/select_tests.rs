use mini_sgbd::col_info::{ColInfo, Record};
use mini_sgbd::select::{split_groups, Select};

#[test]
fn test_alias_manquant() {
    let commande = "SELECT t1.col1, table2.col2 FROM table1 t1, table2";
    let res = Select::new(commande);
    assert!(res.is_err(), "Une erreur devrait se produire car table2 n'a pas d'alias.");
}

#[test]
fn test_alias_invalide_dans_select() {
    let commande = "SELECT t3.col1, t2.col2 FROM table1 t1, table2 t2";
    let res = Select::new(commande);
    assert!(res.is_err(), "Une erreur devrait se produire car t3 n'est pas défini dans FROM.");
}

#[test]
fn test_commande_mal_formee_sans_from() {
    let commande = "SELECT col1";
    let res = Select::new(commande);
    assert!(res.is_err(), "Une erreur devrait se produire car FROM est manquant.");
}

#[test]
fn test_commande_valide_sans_where() {
    let commande = "SELECT t1.col1 FROM table1 t1, table2 t2";
    let res = Select::new(commande);
    assert!(res.is_err(), "La commande sans WHERE est valide si les alias sont définis.");
}

#[test]
fn test_commande_vide() {
    let commande = "";
    let res = Select::new(commande);
    assert!(res.is_err(), "Une erreur devrait se produire pour une commande vide.");
}

#[test]
fn test_from_mal_forme_avec_where() {
    let commande = "SELECT t1.col1 FROM table1 t1 WHERE";
    let res = Select::new(commande);
    assert!(res.is_err(), "Une erreur devrait se produire car WHERE est mal placé sans condition.");
}

#[test]
fn select_valid_command_parts() {
    let s = Select::new("SELECT p.NOM, p.AGE FROM PERSONNE p WHERE p.AGE > 30 AND p.NOM = 'X'").unwrap();
    assert_eq!(s.get_colonnes(), &vec!["p.NOM".to_string(), "p.AGE".to_string()]);
    assert_eq!(s.get_tables(), &vec!["PERSONNE p".to_string()]);
    assert_eq!(s.to_string(), "SELECT p.NOM, p.AGE\nFROM PERSONNE p\nWHERE p.AGE > 30 AND p.NOM = 'X'");
    assert!(s.check_alias().is_ok());
}

#[test]
fn select_error_messages() {
    assert_eq!(Select::new("SELECT col1").unwrap_err(), "Operande invalide ou manquant.");
    assert_eq!(
        Select::new("SELECT t1.a FROM T").unwrap_err(),
        "Erreur alias dans SELECT : \"t1\". Alias non défini dans FROM."
    );
    assert_eq!(
        Select::new("SELECT * FROM T a b").unwrap_err(),
        "Erreur : L'alias est obligatoire pour la table 'T a b'."
    );
    assert_eq!(
        Select::new("SELECT x.a FROM T t").unwrap_err(),
        "Erreur alias dans SELECT : \"x\". Alias non défini dans FROM."
    );
}

#[test]
fn select_lowercase_keywords_and_star() {
    let s = Select::new("select * from T t").unwrap();
    assert_eq!(s.get_colonnes(), &vec!["*".to_string()]);
    assert_eq!(s.get_tables(), &vec!["T t".to_string()]);
}

#[test]
fn select_list_conditions() {
    let cols = vec![ColInfo::new("NOM", "VARCHAR(20)"), ColInfo::new("AGE", "INT")];
    let rec = Record::new(vec!["BOB".to_string(), "41".to_string()]);
    let s = Select::new("SELECT p.NOM FROM P p WHERE p.AGE > 30 AND p.NOM = 'BOB'").unwrap();
    let conds = s.get_list_conditions(&cols, &rec).unwrap();
    assert_eq!(conds.len(), 2);
    assert_eq!(conds[0].to_string(), "Condition { oper_gauche=41, operateur=>, oper_droite=30 }");
    assert_eq!(conds[1].evaluate(), Some(true));
    let s = Select::new("SELECT p.NOM FROM P p WHERE p.AGE >").unwrap();
    match s.get_list_conditions(&cols, &rec) {
        Err(m) => assert_eq!(m, "Syntaxe invalide"),
        Ok(_) => panic!("an unreadable condition is an error"),
    }
}

#[test]
fn select_on_a_table_without_alias() {
    let s = Select::new("SELECT * FROM NomTable WHERE NomTable.AGE>30").unwrap();
    assert_eq!(s.get_tables(), &vec!["NomTable".to_string()]);
    assert_eq!(s.get_colonnes(), &vec!["*".to_string()]);
    let s = Select::new("SELECT NomTable.AGE FROM NomTable").unwrap();
    assert_eq!(s.get_colonnes(), &vec!["NomTable.AGE".to_string()]);
}

#[test]
fn split_groups_after_the_patterns() {
    let (cols, tables, conds) = split_groups("p.A, p.B", "P p", "p.A > 1 AND p.B = 'x'", "SELECT p.A, p.B FROM P p WHERE p.A > 1 AND p.B = 'x'").unwrap();
    assert_eq!(cols, vec!["p.A".to_string(), "p.B".to_string()]);
    assert_eq!(tables, vec!["P p".to_string()]);
    assert_eq!(conds, vec!["p.A > 1".to_string(), "p.B = 'x'".to_string()]);
    assert_eq!(split_groups("", "P", "", "SELECT FROM P").unwrap_err(), "Operande invalide ou manquant.");
    assert_eq!(split_groups("*", "P, Q", "", "SELECT * FROM P, Q").unwrap_err(), "Operande invalide ou manquant.");
    assert_eq!(split_groups("*", "P WHERE", "", "SELECT * FROM P WHERE").unwrap_err(), "Erreur : FROM mal syntaxé.");
    assert_eq!(
        split_groups("*", "P a b", "", "SELECT * FROM P a b").unwrap_err(),
        "Erreur : L'alias est obligatoire pour la table 'P a b'."
    );
    assert_eq!(
        split_groups("*", "P", "", "SELECT * FROM P where").unwrap_err(),
        "Erreur : WHERE est mal syntaxé ou vide."
    );
    let (_, tables, conds) = split_groups("*", "P", "", "SELECT * FROM P").unwrap();
    assert_eq!(tables, vec!["P".to_string()]);
    assert!(conds.is_empty());
}

#[test]
fn conditions_of_a_select_without_alias() {
    let cols = vec![ColInfo::new("NOM", "VARCHAR(20)"), ColInfo::new("AGE", "INT")];
    let rec = Record::new(vec!["BOB".to_string(), "41".to_string()]);
    let s = Select::new("SELECT * FROM NomTable WHERE NomTable.AGE>30 AND NomTable.NOM = 'BOB'").unwrap();
    let conds = s.get_list_conditions(&cols, &rec).unwrap();
    assert_eq!(conds.len(), 2);
    assert_eq!(conds[0].to_string(), "Condition { oper_gauche=41, operateur=>, oper_droite=30 }");
    assert_eq!(conds[1].evaluate(), Some(true));
}

#[test]
fn accepted_select_is_trimmed_and_its_aliases_check() {
    let s = Select::new("SELECT  p.A ,  p.B   FROM   P p   WHERE p.A > 1 AND  p.B = 2").unwrap();
    assert_eq!(s.get_colonnes(), &vec!["p.A".to_string(), "p.B".to_string()]);
    assert_eq!(s.get_tables(), &vec!["P p".to_string()]);
    assert_eq!(s.conditions, vec!["p.A > 1".to_string(), "p.B = 2".to_string()]);
    assert_eq!(s.check_alias(), Ok(()));
}
