use mini_sgbd::col_info::{ColInfo, Record};
use mini_sgbd::operator::{IRecordIterator, ProjectionOperator, RecordPrinter, RelationScanner};

#[test]
fn test_relation_scanner() {
    let record1 = Record::new(vec!["1".to_string(), "John".to_string()]);
    let record2 = Record::new(vec!["2".to_string(), "Jane".to_string()]);
    let records = vec![record1.clone(), record2.clone()];
    let mut scanner = RelationScanner::new(records);

    let result = scanner.get_next_record();
    assert_eq!(result, Some(record1), "Le premier enregistrement devrait être correct.");

    let result = scanner.get_next_record();
    assert_eq!(result, Some(record2), "Le deuxième enregistrement devrait être correct.");

    let result = scanner.get_next_record();
    assert_eq!(result, None, "Il ne devrait plus y avoir d'enregistrement.");
}

#[test]
fn relation_scanner_reset_starts_again() {
    let record1 = Record::new(vec!["1".to_string()]);
    let mut scanner = RelationScanner::new(vec![record1.clone()]);
    assert_eq!(scanner.get_next_record(), Some(record1.clone()));
    assert_eq!(scanner.get_next_record(), None);
    scanner.reset();
    assert_eq!(scanner.get_next_record(), Some(record1));
    scanner.close();
}

#[test]
fn test_record_printer() {
    let record1 = Record::new(vec!["1".to_string(), "John".to_string()]);
    let record2 = Record::new(vec!["2".to_string(), "Jane".to_string()]);
    let records = vec![record1.clone(), record2.clone()];
    let col_info = vec![ColInfo::new("id", "INT"), ColInfo::new("name", "VARCHAR")];
    let scanner = RelationScanner::new(records);
    let projection_operator = ProjectionOperator::new(vec!["id".to_string(), "name".to_string()], scanner, col_info);
    let mut printer = RecordPrinter::new(projection_operator);
    assert_eq!(
        printer.print_records(),
        vec!["1 ; John".to_string(), "2 ; Jane".to_string(), "Total records =  2".to_string()]
    );
}

#[test]
fn projection_keeps_named_columns_in_order() {
    let col_info = vec![ColInfo::new("a", "INT"), ColInfo::new("b", "INT"), ColInfo::new("c", "INT")];
    let scanner = RelationScanner::new(vec![
        Record::new(vec!["1".to_string(), "2".to_string(), "3".to_string()]),
        Record::new(vec!["4".to_string(), "5".to_string(), "6".to_string()]),
    ]);
    let mut p = ProjectionOperator::new(vec!["c".to_string(), "zz".to_string(), "a".to_string()], scanner, col_info);
    let r = p.project_columns(&Record::new(vec!["7".to_string(), "8".to_string(), "9".to_string()]));
    assert_eq!(r.get_tuple(), vec!["9".to_string(), "7".to_string()]);
    assert_eq!(p.get_next_record().unwrap().get_tuple(), vec!["3".to_string(), "1".to_string()]);
    assert_eq!(p.get_next_record().unwrap().get_tuple(), vec!["6".to_string(), "4".to_string()]);
    assert_eq!(p.get_next_record(), None);
    p.reset();
    assert_eq!(p.get_next_record().unwrap().get_tuple(), vec!["3".to_string(), "1".to_string()]);
    p.close();
}

#[test]
fn printer_lines_one_at_a_time() {
    let scanner = RelationScanner::new(vec![Record::new(vec!["x".to_string(), "y".to_string()])]);
    let mut printer = RecordPrinter::new(scanner);
    assert_eq!(printer.next_line(), Some("x ; y".to_string()));
    assert_eq!(printer.next_line(), None);
    assert_eq!(printer.total_line(), "Total records =  1");
    assert_eq!(RecordPrinter::<RelationScanner>::format_record(&Record::new(vec!["a".to_string()])), "a");
}
