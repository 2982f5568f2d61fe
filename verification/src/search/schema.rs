//! The layout of the index: sixteen fields, their names and their options.

use vstd::prelude::*;
use tantivy::schema::{Field, Schema, SchemaBuilder};

verus! {

#[verifier::external_type_specification]
#[verifier::external_body]
pub struct ExSchema(Schema);

#[verifier::external_type_specification]
#[verifier::external_body]
pub struct ExSchemaBuilder(SchemaBuilder);

#[verifier::external_type_specification]
#[verifier::external_body]
pub struct ExField(Field);

/// `Field::clone`: a field handle is a copy of its id, so the clone is the
/// same handle.
pub assume_specification[ <Field as Clone>::clone ](f: &Field) -> (res: Field)
    ensures
        res == *f,
;

/// `Schema::clone`: a schema is shared behind a reference count, so the
/// clone has the same fields.
pub assume_specification[ <Schema as Clone>::clone ](s: &Schema) -> (res: Schema)
    ensures
        schema_fields(res) == schema_fields(*s),
;

/// How a field is indexed and stored.
pub enum FieldKind {
    /// `STRING | STORED`: indexed whole, untokenized, and stored.
    Keyword,
    /// `STRING | STORED | FAST`: as a keyword, and a fast field.
    FastKeyword,
    /// Text analyzed by the named tokenizer, indexed with frequencies and
    /// positions, and stored.
    AnalyzedText(Seq<char>),
    /// `STORED`: stored only, not indexed.
    StoredText,
    /// A fast, stored `i64` field.
    FastI64,
    /// A fast, stored `u64` field.
    FastU64,
}

/// A field of a schema: its name and kind.
pub struct FieldSpec {
    pub name: Seq<char>,
    pub kind: FieldKind,
}

/// The names of the fields `fs`.
pub open spec fn names_of(fs: Seq<FieldSpec>) -> Seq<Seq<char>> {
    fs.map_values(|f: FieldSpec| f.name)
}

/// Name for the fields that a schema builder holds, in the order in which
/// they were added.
pub uninterp spec fn builder_fields(b: SchemaBuilder) -> Seq<FieldSpec>;

/// Name for the fields of a schema, by field id.
pub uninterp spec fn schema_fields(s: Schema) -> Seq<FieldSpec>;

/// Name for what `Field::from_field_id` gives: the handle of the field with
/// the given id.
pub uninterp spec fn field_handle(id: nat) -> Field;

/// Whether tantivy accepts `name` as a field name: not empty, and not
/// starting with `-`.
pub open spec fn valid_field_name(name: Seq<char>) -> bool {
    name.len() > 0 && name[0] != '-'
}

/// Whether a field named `name` can be added to the builder `b` without a
/// panic: the name is valid and not taken, and the next id fits a `u32`.
pub open spec fn can_add(b: SchemaBuilder, name: Seq<char>) -> bool {
    &&& !names_of(builder_fields(b)).contains(name)
    &&& valid_field_name(name)
    &&& builder_fields(b).len() < 0xffff_ffff
}

/// `Schema::builder`: a builder with no field.
#[verifier::external_body]
fn schema_builder() -> (res: SchemaBuilder)
    ensures
        builder_fields(res) == Seq::<FieldSpec>::empty(),
{
    Schema::builder()
}

/// `SchemaBuilder::add_text_field` with `STRING | STORED`: adds the field
/// and gives its handle, whose id is the number of fields added before. The
/// builder panics on a name that is taken or invalid, which `requires`
/// leaves out.
#[verifier::external_body]
fn add_keyword_field(b: &mut SchemaBuilder, name: &str) -> (res: Field)
    requires
        can_add(*old(b), name@),
    ensures
        builder_fields(*final(b)) == builder_fields(*old(b)).push(FieldSpec { name: name@, kind: FieldKind::Keyword }),
        res == field_handle(builder_fields(*old(b)).len()),
{
    b.add_text_field(name, tantivy::schema::STRING | tantivy::schema::STORED)
}

/// `SchemaBuilder::add_text_field` with `STRING | STORED | FAST`, as
/// `add_keyword_field`.
#[verifier::external_body]
fn add_fast_keyword_field(b: &mut SchemaBuilder, name: &str) -> (res: Field)
    requires
        can_add(*old(b), name@),
    ensures
        builder_fields(*final(b)) == builder_fields(*old(b)).push(FieldSpec { name: name@, kind: FieldKind::FastKeyword }),
        res == field_handle(builder_fields(*old(b)).len()),
{
    b.add_text_field(name, tantivy::schema::STRING | tantivy::schema::STORED | tantivy::schema::FAST)
}

/// `SchemaBuilder::add_text_field` with text analyzed by `tokenizer`, with
/// frequencies and positions, and stored; as `add_keyword_field`.
#[verifier::external_body]
fn add_analyzed_text_field(b: &mut SchemaBuilder, name: &str, tokenizer: &str) -> (res: Field)
    requires
        can_add(*old(b), name@),
    ensures
        builder_fields(*final(b)) == builder_fields(*old(b)).push(FieldSpec { name: name@, kind: FieldKind::AnalyzedText(tokenizer@) }),
        res == field_handle(builder_fields(*old(b)).len()),
{
    let indexing = tantivy::schema::TextFieldIndexing::default()
        .set_tokenizer(tokenizer)
        .set_index_option(tantivy::schema::IndexRecordOption::WithFreqsAndPositions);
    b.add_text_field(name, tantivy::schema::TextOptions::default().set_indexing_options(indexing).set_stored())
}

/// `SchemaBuilder::add_text_field` with `STORED`, as `add_keyword_field`.
#[verifier::external_body]
fn add_stored_text_field(b: &mut SchemaBuilder, name: &str) -> (res: Field)
    requires
        can_add(*old(b), name@),
    ensures
        builder_fields(*final(b)) == builder_fields(*old(b)).push(FieldSpec { name: name@, kind: FieldKind::StoredText }),
        res == field_handle(builder_fields(*old(b)).len()),
{
    b.add_text_field(name, tantivy::schema::STORED)
}

/// `SchemaBuilder::add_i64_field`, fast and stored, as `add_keyword_field`.
#[verifier::external_body]
fn add_fast_i64_field(b: &mut SchemaBuilder, name: &str) -> (res: Field)
    requires
        can_add(*old(b), name@),
    ensures
        builder_fields(*final(b)) == builder_fields(*old(b)).push(FieldSpec { name: name@, kind: FieldKind::FastI64 }),
        res == field_handle(builder_fields(*old(b)).len()),
{
    b.add_i64_field(name, tantivy::schema::NumericOptions::default().set_fast().set_stored())
}

/// `SchemaBuilder::add_u64_field`, fast and stored, as `add_keyword_field`.
#[verifier::external_body]
fn add_fast_u64_field(b: &mut SchemaBuilder, name: &str) -> (res: Field)
    requires
        can_add(*old(b), name@),
    ensures
        builder_fields(*final(b)) == builder_fields(*old(b)).push(FieldSpec { name: name@, kind: FieldKind::FastU64 }),
        res == field_handle(builder_fields(*old(b)).len()),
{
    b.add_u64_field(name, tantivy::schema::NumericOptions::default().set_fast().set_stored())
}

/// `SchemaBuilder::build`: the schema of the fields added.
#[verifier::external_body]
fn build_schema(b: SchemaBuilder) -> (res: Schema)
    ensures
        schema_fields(res) == builder_fields(b),
{
    b.build()
}

/// The fields of the index, by field id: doc_id, path, mime_type, language,
/// source_type and checksum are keywords; extension is a fast keyword;
/// filename, title, content and tags are text analyzed by `rn_default`;
/// summary is stored only; created_at, modified_at and indexed_at are fast
/// `i64` fields and size_bytes a fast `u64` field.
pub open spec fn index_layout() -> Seq<FieldSpec> {
    seq![
        FieldSpec { name: "doc_id"@, kind: FieldKind::Keyword },
        FieldSpec { name: "path"@, kind: FieldKind::Keyword },
        FieldSpec { name: "filename"@, kind: FieldKind::AnalyzedText("rn_default"@) },
        FieldSpec { name: "title"@, kind: FieldKind::AnalyzedText("rn_default"@) },
        FieldSpec { name: "extension"@, kind: FieldKind::FastKeyword },
        FieldSpec { name: "mime_type"@, kind: FieldKind::Keyword },
        FieldSpec { name: "content"@, kind: FieldKind::AnalyzedText("rn_default"@) },
        FieldSpec { name: "summary"@, kind: FieldKind::StoredText },
        FieldSpec { name: "language"@, kind: FieldKind::Keyword },
        FieldSpec { name: "created_at"@, kind: FieldKind::FastI64 },
        FieldSpec { name: "modified_at"@, kind: FieldKind::FastI64 },
        FieldSpec { name: "indexed_at"@, kind: FieldKind::FastI64 },
        FieldSpec { name: "size_bytes"@, kind: FieldKind::FastU64 },
        FieldSpec { name: "source_type"@, kind: FieldKind::Keyword },
        FieldSpec { name: "tags"@, kind: FieldKind::AnalyzedText("rn_default"@) },
        FieldSpec { name: "checksum"@, kind: FieldKind::Keyword },
    ]
}

/// The names of the fields of the index, by field id.
pub open spec fn field_names() -> Seq<Seq<char>> {
    seq![
        "doc_id"@, "path"@, "filename"@, "title"@, "extension"@, "mime_type"@, "content"@,
        "summary"@, "language"@, "created_at"@, "modified_at"@, "indexed_at"@, "size_bytes"@,
        "source_type"@, "tags"@, "checksum"@,
    ]
}

/// The field names are distinct and valid.
proof fn lemma_field_names_distinct()
    ensures
        field_names().no_duplicates(),
        forall|k: int| 0 <= k < 16 ==> valid_field_name(#[trigger] field_names()[k]),
{
    reveal_strlit("doc_id");
    reveal_strlit("path");
    reveal_strlit("filename");
    reveal_strlit("title");
    reveal_strlit("extension");
    reveal_strlit("mime_type");
    reveal_strlit("content");
    reveal_strlit("summary");
    reveal_strlit("language");
    reveal_strlit("created_at");
    reveal_strlit("modified_at");
    reveal_strlit("indexed_at");
    reveal_strlit("size_bytes");
    reveal_strlit("source_type");
    reveal_strlit("tags");
    reveal_strlit("checksum");
    let f = field_names();
    assert forall|i: int, j: int| 0 <= i < f.len() && 0 <= j < f.len() && i != j implies f[i] != f[j] by {
        if f[i] == f[j] {
            assert(f[i].len() == f[j].len());
            assert(f[i][0] == f[j][0]);
            assert(f[i][1] == f[j][1]);
            assert(f[i][f[i].len() - 1] == f[j][f[j].len() - 1]);
        }
    }
}

/// The schema of the index and the handles of its fields.
#[derive(Clone)]
pub struct RnSchema {
    pub schema: Schema,
    pub doc_id: Field,
    pub path: Field,
    pub filename: Field,
    pub title: Field,
    pub extension: Field,
    pub mime_type: Field,
    pub content: Field,
    pub summary: Field,
    pub language: Field,
    pub created_at: Field,
    pub modified_at: Field,
    pub indexed_at: Field,
    pub size_bytes: Field,
    pub source_type: Field,
    pub tags: Field,
    pub checksum: Field,
}


/// The first `k` fields of the layout, as a builder holds them before the
/// field at `k` is added: their names are the first `k` names, which do not
/// hold the name at `k`, and that name is valid.
proof fn lemma_layout_prefix(k: int)
    requires
        0 <= k < 16,
    ensures
        names_of(index_layout().take(k)) == field_names().take(k),
        !field_names().take(k).contains(field_names()[k]),
        valid_field_name(field_names()[k]),
{
    lemma_field_names_distinct();
    assert(names_of(index_layout()) =~= field_names());
    assert(names_of(index_layout().take(k)) =~= field_names().take(k));
    if field_names().take(k).contains(field_names()[k]) {
        let j = choose|j: int| 0 <= j < k && field_names().take(k)[j] == field_names()[k];
        assert(field_names()[j] == field_names()[k]);
    }
}

impl RnSchema {
    /// Whether the handles are those of the fields named in `field_names`,
    /// in that order.
    pub open spec fn handles_in_order(&self) -> bool {
        &&& self.doc_id == field_handle(0)
        &&& self.path == field_handle(1)
        &&& self.filename == field_handle(2)
        &&& self.title == field_handle(3)
        &&& self.extension == field_handle(4)
        &&& self.mime_type == field_handle(5)
        &&& self.content == field_handle(6)
        &&& self.summary == field_handle(7)
        &&& self.language == field_handle(8)
        &&& self.created_at == field_handle(9)
        &&& self.modified_at == field_handle(10)
        &&& self.indexed_at == field_handle(11)
        &&& self.size_bytes == field_handle(12)
        &&& self.source_type == field_handle(13)
        &&& self.tags == field_handle(14)
        &&& self.checksum == field_handle(15)
    }

    /// Builds the schema of the index, laid out as `index_layout` says.
    pub fn build() -> (res: RnSchema)
        ensures
            schema_fields(res.schema) == index_layout(),
            res.handles_in_order(),
    {
        let mut b = schema_builder();
        proof { assert(builder_fields(b) =~= index_layout().take(0)); lemma_layout_prefix(0); }
        let doc_id = add_keyword_field(&mut b, "doc_id");
        proof { assert(builder_fields(b) =~= index_layout().take(1)); lemma_layout_prefix(1); }
        let path = add_keyword_field(&mut b, "path");
        proof { assert(builder_fields(b) =~= index_layout().take(2)); lemma_layout_prefix(2); }
        let filename = add_analyzed_text_field(&mut b, "filename", "rn_default");
        proof { assert(builder_fields(b) =~= index_layout().take(3)); lemma_layout_prefix(3); }
        let title = add_analyzed_text_field(&mut b, "title", "rn_default");
        proof { assert(builder_fields(b) =~= index_layout().take(4)); lemma_layout_prefix(4); }
        let extension = add_fast_keyword_field(&mut b, "extension");
        proof { assert(builder_fields(b) =~= index_layout().take(5)); lemma_layout_prefix(5); }
        let mime_type = add_keyword_field(&mut b, "mime_type");
        proof { assert(builder_fields(b) =~= index_layout().take(6)); lemma_layout_prefix(6); }
        let content = add_analyzed_text_field(&mut b, "content", "rn_default");
        proof { assert(builder_fields(b) =~= index_layout().take(7)); lemma_layout_prefix(7); }
        let summary = add_stored_text_field(&mut b, "summary");
        proof { assert(builder_fields(b) =~= index_layout().take(8)); lemma_layout_prefix(8); }
        let language = add_keyword_field(&mut b, "language");
        proof { assert(builder_fields(b) =~= index_layout().take(9)); lemma_layout_prefix(9); }
        let created_at = add_fast_i64_field(&mut b, "created_at");
        proof { assert(builder_fields(b) =~= index_layout().take(10)); lemma_layout_prefix(10); }
        let modified_at = add_fast_i64_field(&mut b, "modified_at");
        proof { assert(builder_fields(b) =~= index_layout().take(11)); lemma_layout_prefix(11); }
        let indexed_at = add_fast_i64_field(&mut b, "indexed_at");
        proof { assert(builder_fields(b) =~= index_layout().take(12)); lemma_layout_prefix(12); }
        let size_bytes = add_fast_u64_field(&mut b, "size_bytes");
        proof { assert(builder_fields(b) =~= index_layout().take(13)); lemma_layout_prefix(13); }
        let source_type = add_keyword_field(&mut b, "source_type");
        proof { assert(builder_fields(b) =~= index_layout().take(14)); lemma_layout_prefix(14); }
        let tags = add_analyzed_text_field(&mut b, "tags", "rn_default");
        proof { assert(builder_fields(b) =~= index_layout().take(15)); lemma_layout_prefix(15); }
        let checksum = add_keyword_field(&mut b, "checksum");
        assert(builder_fields(b) =~= index_layout());
        RnSchema {
            schema: build_schema(b),
            doc_id,
            path,
            filename,
            title,
            extension,
            mime_type,
            content,
            summary,
            language,
            created_at,
            modified_at,
            indexed_at,
            size_bytes,
            source_type,
            tags,
            checksum,
        }
    }
}

} // verus!
