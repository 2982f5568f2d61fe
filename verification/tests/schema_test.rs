use recoll_next::search::schema::RnSchema;

#[test]
fn build_creates_schema_with_all_16_fields() {
    let s = RnSchema::build();
    let field_names: Vec<&str> = s.schema.fields().map(|(_, entry)| entry.name()).collect();
    assert!(field_names.contains(&"doc_id"));
    assert!(field_names.contains(&"path"));
    assert!(field_names.contains(&"filename"));
    assert!(field_names.contains(&"title"));
    assert!(field_names.contains(&"extension"));
    assert!(field_names.contains(&"mime_type"));
    assert!(field_names.contains(&"content"));
    assert!(field_names.contains(&"summary"));
    assert!(field_names.contains(&"language"));
    assert!(field_names.contains(&"created_at"));
    assert!(field_names.contains(&"modified_at"));
    assert!(field_names.contains(&"indexed_at"));
    assert!(field_names.contains(&"size_bytes"));
    assert!(field_names.contains(&"source_type"));
    assert!(field_names.contains(&"tags"));
    assert!(field_names.contains(&"checksum"));
    assert_eq!(field_names.len(), 16);
}

#[test]
fn doc_id_and_path_are_string_stored() {
    let s = RnSchema::build();
    let doc_id_entry = s.schema.get_field_entry(s.doc_id);
    assert!(doc_id_entry.is_indexed());
    assert!(doc_id_entry.is_stored());

    let path_entry = s.schema.get_field_entry(s.path);
    assert!(path_entry.is_indexed());
    assert!(path_entry.is_stored());
}

#[test]
fn content_is_indexed_and_stored() {
    let s = RnSchema::build();
    let content_entry = s.schema.get_field_entry(s.content);
    assert!(content_entry.is_indexed());
    assert!(content_entry.is_stored());
}

#[test]
fn modified_at_is_i64_stored() {
    let s = RnSchema::build();
    let entry = s.schema.get_field_entry(s.modified_at);
    assert!(entry.is_stored());
    assert_eq!(entry.name(), "modified_at");
}

#[test]
fn size_bytes_is_u64_stored() {
    let s = RnSchema::build();
    let entry = s.schema.get_field_entry(s.size_bytes);
    assert!(entry.is_stored());
    assert_eq!(entry.name(), "size_bytes");
}

#[test]
fn field_handles_follow_the_layout() {
    let s = RnSchema::build();
    assert_eq!(s.doc_id.field_id(), 0);
    assert_eq!(s.checksum.field_id(), 15);
    assert_eq!(s.schema.get_field_entry(s.extension).name(), "extension");
    assert!(s.schema.get_field_entry(s.extension).is_fast());
    assert!(!s.schema.get_field_entry(s.summary).is_indexed());
}
