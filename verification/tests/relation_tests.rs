use mini_sgbd::buffer::Buffer;
use mini_sgbd::col_info::{ColInfo, Record};
use mini_sgbd::page::PageId;
use mini_sgbd::relation::{Field, Relation};

fn texts(fields: &[Field]) -> Vec<String> {
    fields
        .iter()
        .map(|f| match f {
            Field::Text(s) => s.clone(),
            Field::Real(bits) => format!("real:{}", f32::from_bits(*bits)),
        })
        .collect()
}

fn personne() -> Relation {
    Relation::new(
        "PERSONNE".to_string(),
        vec![ColInfo::new("AGE", "INT"), ColInfo::new("NOM", "VARCHAR(6)"), ColInfo::new("TAILLE", "REAL")],
        PageId::new(0, 0),
    )
}

fn record(age: &str, nom: &str, taille: &str) -> Record {
    Record::new(vec![age.to_string(), nom.to_string(), taille.to_string()])
}

#[test]
fn record_written_then_read_back() {
    let rel = personne();
    let mut buffer = Buffer::with_size(64);
    let bits = vec![0, 0, 1.5f32.to_bits()];
    let n = rel.write_record_to_buffer(&record("42", "Bob", "1.5"), &bits, &mut buffer, 3).unwrap();
    assert_eq!(n, 4 * 3 + 4 + 4 + 3 + 4);
    let (fields, m) = rel.read_from_buffer(&mut buffer, 3).unwrap();
    assert_eq!(m, n);
    assert_eq!(texts(&fields), vec!["42".to_string(), "Bob".to_string(), "real:1.5".to_string()]);
}

#[test]
fn flat_record_without_varchar() {
    let rel = Relation::new(
        "R".to_string(),
        vec![ColInfo::new("A", "INT"), ColInfo::new("B", "CHAR(3)")],
        PageId::new(0, 0),
    );
    let mut buffer = Buffer::with_size(16);
    let rec = Record::new(vec!["-7".to_string(), "xyz".to_string()]);
    let n = rel.write_record_to_buffer(&rec, &vec![0, 0], &mut buffer, 0).unwrap();
    assert_eq!(n, 7);
    assert_eq!(&buffer.as_bytes()[0..7], &[0xFF, 0xFF, 0xFF, 0xF9, b'x', b'y', b'z']);
    let (fields, m) = rel.read_from_buffer(&mut buffer, 0).unwrap();
    assert_eq!(m, 7);
    assert_eq!(texts(&fields), vec!["-7".to_string(), "xyz".to_string()]);
}

#[test]
fn record_that_does_not_fit_is_refused() {
    let rel = personne();
    let mut buffer = Buffer::with_size(8);
    assert!(rel.write_record_to_buffer(&record("1", "A", "0"), &vec![0, 0, 0], &mut buffer, 0).is_none());
    let bad = Relation::new("R".to_string(), vec![ColInfo::new("A", "INT")], PageId::new(0, 0));
    let mut b2 = Buffer::with_size(16);
    assert!(bad.write_record_to_buffer(&Record::new(vec!["abc".to_string()]), &vec![0], &mut b2, 0).is_none());
}

#[test]
fn data_page_inserts_read_back_in_order() {
    let rel = personne();
    let page_size: u32 = 128;
    let mut header = Buffer::with_size(page_size as usize);
    Relation::init_header_page(&mut header);
    assert!(Relation::get_data_pages(&mut header).is_empty());
    let mut data = Buffer::with_size(page_size as usize);
    let pid = PageId::new(0, 1);
    Relation::add_data_page(&mut header, &mut data, pid, page_size);
    assert_eq!(Relation::get_data_pages(&mut header), vec![pid]);
    assert_eq!(Relation::get_free_data_page_id(&mut header, 10), Some(pid));
    assert_eq!(Relation::get_free_data_page_id(&mut header, 200), None);

    let bits = vec![0, 0, 2.0f32.to_bits()];
    let r1 = rel.write_record_to_data_page(&record("1", "Ann", "2"), &bits, &mut data, &mut header, pid, page_size).unwrap();
    let r2 = rel.write_record_to_data_page(&record("2", "Bo", "2"), &bits, &mut data, &mut header, pid, page_size).unwrap();
    assert_eq!(*r1.get_page_id(), pid);
    assert_eq!(*r1.get_slot_idx(), 128 - 16);
    assert_eq!(*r2.get_slot_idx(), 128 - 24);
    let recs = rel.get_records_in_data_page(&mut data, page_size).unwrap();
    assert_eq!(recs.len(), 2);
    assert_eq!(texts(&recs[0]), vec!["1".to_string(), "Ann".to_string(), "real:2".to_string()]);
    assert_eq!(texts(&recs[1]), vec!["2".to_string(), "Bo".to_string(), "real:2".to_string()]);
    // The header counts the space taken: the page size less the footer, each record and its slot.
    assert_eq!(Relation::get_free_data_page_id(&mut header, 128 - 8 - (27 + 8) - (26 + 8) - 8), Some(pid));
    assert_eq!(Relation::get_free_data_page_id(&mut header, 128 - 8 - (27 + 8) - (26 + 8) - 7), None);
}

#[test]
fn record_size_counts_the_layout() {
    let rel = personne();
    assert_eq!(rel.record_size(&record("42", "Bob", "1.5"), &vec![0, 0, 0], 64), Some(27));
    assert_eq!(rel.record_size(&record("42", "Bob", "1.5"), &vec![0, 0, 0], 16), Some(27));
    assert_eq!(rel.record_size(&record("x", "Bob", "1.5"), &vec![0, 0, 0], 64), None);
}

#[test]
fn relation_getters() {
    let rel = personne();
    assert_eq!(rel.get_name(), "PERSONNE");
    assert_eq!(rel.get_columns().len(), 3);
    assert_eq!(*rel.get_header_page_id(), PageId::new(0, 0));
}

#[test]
fn record_written_past_the_end_grows_the_buffer() {
    let rel = Relation::new(
        "R".to_string(),
        vec![ColInfo::new("A", "INT"), ColInfo::new("B", "CHAR(3)")],
        PageId::new(0, 0),
    );
    let mut buffer = Buffer::with_size(4);
    let rec = Record::new(vec!["5".to_string(), "abc".to_string()]);
    let n = rel.write_record_to_buffer(&rec, &vec![0, 0], &mut buffer, 0).unwrap();
    assert_eq!(n, 7);
    assert_eq!(buffer.len(), 7);
    let (fields, m) = rel.read_from_buffer(&mut buffer, 0).unwrap();
    assert_eq!(m, 7);
    assert_eq!(texts(&fields), vec!["5".to_string(), "abc".to_string()]);
}

#[test]
fn record_whose_int_lies_past_the_end_does_not_read_back() {
    let rel = Relation::new(
        "R".to_string(),
        vec![ColInfo::new("B", "CHAR(4)"), ColInfo::new("A", "INT")],
        PageId::new(0, 0),
    );
    let mut buffer = Buffer::with_size(4);
    let rec = Record::new(vec!["abcd".to_string(), "1".to_string()]);
    assert_eq!(rel.write_record_to_buffer(&rec, &vec![0, 0], &mut buffer, 0), Some(8));
    assert!(rel.read_from_buffer(&mut buffer, 0).is_none());
}
