use recoll_next::search::document::{build_document, hit_fields, stored_text};
use recoll_next::search::schema::RnSchema;
use tantivy::schema::Value;

#[test]
fn document_holds_the_given_values() {
    let s = RnSchema::build();
    let d = build_document(&s, "d1", "/a.rs", "main.rs", Some("rs"), "fn main", 100, 1700000000);
    assert_eq!(d.get_first(s.doc_id).and_then(|v| v.as_str()), Some("d1"));
    assert_eq!(d.get_first(s.extension).and_then(|v| v.as_str()), Some("rs"));
    assert_eq!(d.get_first(s.content).and_then(|v| v.as_str()), Some("fn main"));
    assert_eq!(d.get_first(s.size_bytes).and_then(|v| v.as_u64()), Some(100));
    assert_eq!(d.get_first(s.modified_at).and_then(|v| v.as_i64()), Some(1700000000));
    assert_eq!(d.field_values().len(), 7);
    let plain = build_document(&s, "d2", "/b", "b", None, "x", 1, 2);
    assert_eq!(plain.field_values().len(), 6);
    assert!(plain.get_first(s.extension).is_none());
}

#[test]
fn hit_fields_read_back_stored_strings() {
    let s = RnSchema::build();
    let d = build_document(&s, "d1", "/a.txt", "a.txt", None, "hello", 1, 2);
    assert_eq!(
        hit_fields(&d, &s),
        ("d1".to_string(), "/a.txt".to_string(), "a.txt".to_string())
    );
    assert_eq!(stored_text(&d, s.title), "");
    assert_eq!(stored_text(&d, s.size_bytes), "");
}
