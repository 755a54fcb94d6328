use mini_sgbd::col_info::ColInfo;
use mini_sgbd::page::PageId;
use mini_sgbd::relation::Relation;
use mini_sgbd::sgbd::{
    parse_bulk_insert, parse_command, parse_create_table, parse_csv, parse_insert, plan_select, words_of, CommandKind,
    SelectPlan,
};

fn kind_arg(line: &str) -> (CommandKind, String) {
    let c = parse_command(line);
    (c.kind, c.arg)
}

#[test]
fn commands_are_recognised() {
    assert_eq!(kind_arg("QUIT\n"), (CommandKind::Quit, "QUIT".to_string()));
    assert_eq!(kind_arg("CREATE DATABASE db1\r\n"), (CommandKind::CreateDatabase, "db1".to_string()));
    assert_eq!(kind_arg("SET DATABASE db1"), (CommandKind::SetDatabase, "db1".to_string()));
    assert_eq!(kind_arg("DROP DATABASES"), (CommandKind::DropDatabases, "DATABASES".to_string()));
    assert_eq!(kind_arg("DROP DATABASE db1"), (CommandKind::DropDatabase, "db1".to_string()));
    assert_eq!(kind_arg("LIST DATABASES"), (CommandKind::ListDatabases, "DATABASES".to_string()));
    assert_eq!(
        kind_arg("CREATE TABLE Tab1 (C1:REAL,C2:INT)"),
        (CommandKind::CreateTable, "Tab1 (C1:REAL,C2:INT)".to_string())
    );
    assert_eq!(kind_arg("DROP TABLES"), (CommandKind::DropTables, "TABLES".to_string()));
    assert_eq!(kind_arg("DROP TABLE Tab1"), (CommandKind::DropTable, "Tab1".to_string()));
    assert_eq!(kind_arg("LIST TABLES"), (CommandKind::ListTables, "TABLES".to_string()));
    assert_eq!(
        kind_arg("INSERT INTO Tab1 VALUES (1,2)"),
        (CommandKind::Insert, "Tab1 VALUES (1,2)".to_string())
    );
    assert_eq!(
        kind_arg("BULKINSERT INTO  Tab1   data.csv"),
        (CommandKind::BulkInsert, "Tab1 data.csv".to_string())
    );
    assert_eq!(
        kind_arg("SELECT * FROM Tab1 t\n"),
        (CommandKind::Select, "SELECT * FROM Tab1 t".to_string())
    );
    assert_eq!(kind_arg("select *"), (CommandKind::Unknown, "select *".to_string()));
}

#[test]
fn words_split_on_any_white_space() {
    let cs: Vec<char> = " a\tbc \u{3000}d  ".chars().collect();
    let w: Vec<String> = words_of(&cs).into_iter().map(|v| v.into_iter().collect()).collect();
    assert_eq!(w, vec!["a".to_string(), "bc".to_string(), "d".to_string()]);
}

#[test]
fn create_table_arguments() {
    let (name, cols) = parse_create_table("Tab1 (C1:REAL,C2:VARCHAR(3):x)").unwrap();
    assert_eq!(name, "Tab1");
    assert_eq!(cols.len(), 2);
    assert_eq!((cols[0].get_name().as_str(), cols[0].get_column_type().as_str()), ("C1", "REAL"));
    assert_eq!((cols[1].get_name().as_str(), cols[1].get_column_type().as_str()), ("C2", "VARCHAR(3)"));
    assert!(parse_create_table("Tab1").is_none());
    assert!(parse_create_table("Tab1 (C1,C2:INT)").is_none());
}

#[test]
fn insert_arguments() {
    let (name, vals) = parse_insert("Tab1 VALUES (12,abc)").unwrap();
    assert_eq!(name, "Tab1");
    assert_eq!(vals, vec!["12".to_string(), "abc".to_string()]);
    let (_, vals) = parse_insert("T VALUES (ʺBobʺ,3)").unwrap();
    assert_eq!(vals, vec!["Bob".to_string(), "3".to_string()]);
    let (_, vals) = parse_insert("T VALUES (\"Alice\",3)").unwrap();
    assert_eq!(vals, vec!["lic".to_string(), "3".to_string()]);
    assert!(parse_insert("T VALUES").is_none());
    assert!(parse_insert("T VALUES (\"ab)").is_none());
    assert!(parse_insert("T VALUES (“Bob”)").is_none());
}

#[test]
fn bulk_insert_arguments_and_csv() {
    assert_eq!(parse_bulk_insert("Tab1 f.csv"), Some(("Tab1".to_string(), "f.csv".to_string())));
    assert_eq!(parse_bulk_insert("Tab1"), None);
    let recs = parse_csv("1,a\r\n2,b\n3,c\r").unwrap();
    assert_eq!(
        recs,
        vec![
            vec!["1".to_string(), "a".to_string()],
            vec!["2".to_string(), "b".to_string()],
            vec!["3".to_string(), "c\r".to_string()],
        ]
    );
    assert_eq!(parse_csv("").unwrap().len(), 0);
    assert_eq!(parse_csv("x\n").unwrap(), vec![vec!["x".to_string()]]);
    assert!(parse_csv("\"a\n").is_none());
}

fn relations() -> Vec<Relation> {
    vec![
        Relation::new("P".to_string(), vec![ColInfo::new("A", "INT")], PageId::new(0, 1)),
        Relation::new(
            "Q".to_string(),
            vec![ColInfo::new("A", "INT"), ColInfo::new("B", "VARCHAR(4)")],
            PageId::new(0, 2),
        ),
    ]
}

#[test]
fn select_plans() {
    let rels = relations();
    match plan_select("SELECT * FROM Q q", Some(&rels)) {
        SelectPlan::Run { table, columns, select } => {
            assert_eq!(table, 1);
            assert_eq!(columns, vec!["A".to_string(), "B".to_string()]);
            assert!(select.conditions.is_empty());
        }
        _ => panic!("the select runs"),
    }
    match plan_select("SELECT q.B, q.A, x FROM Q q WHERE q.A > 1", Some(&rels)) {
        SelectPlan::Run { table, columns, select } => {
            assert_eq!(table, 1);
            assert_eq!(columns, vec!["B".to_string(), "A".to_string()]);
            assert_eq!(select.conditions, vec!["q.A > 1".to_string()]);
        }
        _ => panic!("the select runs"),
    }
    assert!(matches!(plan_select("SELECT q.A FROM Z q", Some(&rels)), SelectPlan::NoTable));
    assert!(matches!(plan_select("SELECT * FROM Z q", Some(&rels)), SelectPlan::NoTableForAll));
    assert!(matches!(plan_select("SELECT q.A FROM Q q", None), SelectPlan::NoCurrentDatabase));
    match plan_select("SELECT col1", Some(&rels)) {
        SelectPlan::Refused(m) => assert_eq!(m, "Operande invalide ou manquant."),
        _ => panic!("the select is refused"),
    }
}

#[test]
fn readme_command_forms() {
    assert_eq!(kind_arg("CREATE DATABASE NomBDD;"), (CommandKind::CreateDatabase, "NomBDD".to_string()));
    assert_eq!(kind_arg("DROP DATABASE NomBDD;\n"), (CommandKind::DropDatabase, "NomBDD".to_string()));
    let (kind, arg) = kind_arg("CREATE TABLE T (A:INT, B:INT);");
    assert_eq!(kind, CommandKind::CreateTable);
    assert_eq!(arg, "T (A:INT, B:INT)");
    let (name, cols) = parse_create_table(&arg).unwrap();
    assert_eq!(name, "T");
    assert_eq!(cols.len(), 2);
    assert_eq!((cols[0].get_name().as_str(), cols[0].get_column_type().as_str()), ("A", "INT"));
    assert_eq!((cols[1].get_name().as_str(), cols[1].get_column_type().as_str()), ("B", "INT"));
    let (kind, arg) = kind_arg("INSERT INTO T VALUES (1, 2, 3);");
    assert_eq!(kind, CommandKind::Insert);
    let (name, vals) = parse_insert(&arg).unwrap();
    assert_eq!(name, "T");
    assert_eq!(vals, vec!["1".to_string(), "2".to_string(), "3".to_string()]);
}

#[test]
fn select_plan_on_a_table_without_alias() {
    let rels = relations();
    match plan_select("SELECT * FROM P WHERE P.A > 1", Some(&rels)) {
        SelectPlan::Run { table, columns, select } => {
            assert_eq!(table, 0);
            assert_eq!(columns, vec!["A".to_string()]);
            assert_eq!(select.conditions, vec!["P.A > 1".to_string()]);
        }
        _ => panic!("the select runs"),
    }
}
