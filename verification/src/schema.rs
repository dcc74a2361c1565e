//! The schema of a dataset, and the records that a build prepares by it.
use vstd::prelude::*;
use vstd::string::*;

use crate::json;
use crate::json::{document_json, field_value, object_json, JsonDocument, JsonModel, JsonValue};
use crate::text;
use crate::text::{hex_text, is_blank_text, join_texts};
use crate::text_map;
use crate::text_map::TextMap;

verus! {

/// How the flat records of a dataset are read.
#[derive(Debug, Clone)]
pub struct DatasetSchema {
    pub dataset_id: String,
    pub primary_key: String,
    pub text_fields: Vec<String>,
    pub display_fields: Vec<String>,
    pub full_text_fields: Vec<String>,
    pub source_uri_field: Option<String>,
    pub source_label_field: Option<String>,
    pub filter_fields: TextMap<FilterField>,
}

/// A field by which results can be filtered.
#[derive(Debug, Clone)]
pub struct FilterField {
    pub field_type: FilterType,
    pub label: Option<String>,
    pub ui: FilterUi,
}

/// The type of the values of a filter field.
#[derive(Debug, Clone, Copy, PartialEq, Eq, Structural)]
pub enum FilterType {
    Keyword,
    Number,
    Date,
    Boolean,
}

/// How a filter is offered to the user.
#[derive(Debug, Clone, Copy, PartialEq, Eq, Structural)]
pub enum FilterUi {
    Select,
    MultiSelect,
    DateRange,
    NumberRange,
    Checkbox,
}

/// How a filter is offered where the schema does not say.
pub fn default_filter_ui() -> (r: FilterUi)
    ensures
        r == FilterUi::Select,
{
    FilterUi::Select
}

/// A record that is ready to be indexed.
#[derive(Debug, Clone)]
pub struct PreparedRecord {
    pub record_id: String,
    pub searchable_text: String,
    pub payload_json: String,
    pub display_json: String,
    pub filters: TextMap<JsonValue>,
    pub row_hash: String,
}

impl PreparedRecord {
    /// The filters stand in the order of their names, none of them twice.
    pub open spec fn wf(&self) -> bool {
        self.filters.wf()
    }
}

/// Why a schema or a record is refused.
#[derive(Debug, Clone, PartialEq, Eq)]
pub enum SchemaError {
    MissingDatasetId,
    MissingPrimaryKey,
    MissingTextFields,
    MissingField(String),
    NotFlatObject,
    EmptySearchableText(String),
    DuplicatePrimaryKey(String),
    NestedValue { field: String },
    InvalidFilterValue { field: String, expected: FilterType },
}

/// Why a schema or a record is refused, without its representation.
pub enum SchemaErrorModel {
    MissingDatasetId,
    MissingPrimaryKey,
    MissingTextFields,
    MissingField(Seq<char>),
    NotFlatObject,
    EmptySearchableText(Seq<char>),
    DuplicatePrimaryKey(Seq<char>),
    NestedValue(Seq<char>),
    InvalidFilterValue(Seq<char>, FilterType),
}

impl View for SchemaError {
    type V = SchemaErrorModel;

    open spec fn view(&self) -> SchemaErrorModel {
        match self {
            SchemaError::MissingDatasetId => SchemaErrorModel::MissingDatasetId,
            SchemaError::MissingPrimaryKey => SchemaErrorModel::MissingPrimaryKey,
            SchemaError::MissingTextFields => SchemaErrorModel::MissingTextFields,
            SchemaError::MissingField(s) => SchemaErrorModel::MissingField(s@),
            SchemaError::NotFlatObject => SchemaErrorModel::NotFlatObject,
            SchemaError::EmptySearchableText(s) => SchemaErrorModel::EmptySearchableText(s@),
            SchemaError::DuplicatePrimaryKey(s) => SchemaErrorModel::DuplicatePrimaryKey(s@),
            SchemaError::NestedValue { field } => SchemaErrorModel::NestedValue(field@),
            SchemaError::InvalidFilterValue { field, expected } => {
                SchemaErrorModel::InvalidFilterValue(field@, *expected)
            },
        }
    }
}

impl FilterType {
    /// The name of the type.
    pub open spec fn spec_name(self) -> Seq<char> {
        match self {
            FilterType::Keyword => "Keyword"@,
            FilterType::Number => "Number"@,
            FilterType::Date => "Date"@,
            FilterType::Boolean => "Boolean"@,
        }
    }

    /// The name of the type.
    pub fn name(&self) -> (r: String)
        ensures
            r@ == self.spec_name(),
    {
        match self {
            FilterType::Keyword => "Keyword".to_string(),
            FilterType::Number => "Number".to_string(),
            FilterType::Date => "Date".to_string(),
            FilterType::Boolean => "Boolean".to_string(),
        }
    }
}

impl SchemaErrorModel {
    /// The message of the error.
    pub open spec fn message(self) -> Seq<char> {
        match self {
            SchemaErrorModel::MissingDatasetId => "schema.dataset_id is required"@,
            SchemaErrorModel::MissingPrimaryKey => "schema.primary_key is required"@,
            SchemaErrorModel::MissingTextFields => "schema.text_fields must not be empty"@,
            SchemaErrorModel::MissingField(field) => "schema field `"@ + field
                + "` is referenced but not present in record"@,
            SchemaErrorModel::NotFlatObject => "record must be a flat JSON object"@,
            SchemaErrorModel::EmptySearchableText(id) => "record `"@ + id
                + "` has empty searchable text"@,
            SchemaErrorModel::DuplicatePrimaryKey(id) => "duplicate primary key `"@ + id + "`"@,
            SchemaErrorModel::NestedValue(field) => "field `"@ + field
                + "` has unsupported nested value"@,
            SchemaErrorModel::InvalidFilterValue(field, expected) => "filter field `"@ + field
                + "` has invalid value for type `"@ + expected.spec_name() + "`"@,
        }
    }
}

impl SchemaError {
    /// The message of the error.
    pub fn message(&self) -> (r: String)
        ensures
            r@ == self@.message(),
    {
        let mut out = String::new();
        match self {
            SchemaError::MissingDatasetId => out.append("schema.dataset_id is required"),
            SchemaError::MissingPrimaryKey => out.append("schema.primary_key is required"),
            SchemaError::MissingTextFields => out.append("schema.text_fields must not be empty"),
            SchemaError::MissingField(field) => {
                out.append("schema field `");
                out.append(field.as_str());
                out.append("` is referenced but not present in record");
            },
            SchemaError::NotFlatObject => out.append("record must be a flat JSON object"),
            SchemaError::EmptySearchableText(id) => {
                out.append("record `");
                out.append(id.as_str());
                out.append("` has empty searchable text");
            },
            SchemaError::DuplicatePrimaryKey(id) => {
                out.append("duplicate primary key `");
                out.append(id.as_str());
                out.append("`");
            },
            SchemaError::NestedValue { field } => {
                out.append("field `");
                out.append(field.as_str());
                out.append("` has unsupported nested value");
            },
            SchemaError::InvalidFilterValue { field, expected } => {
                out.append("filter field `");
                out.append(field.as_str());
                out.append("` has invalid value for type `");
                out.append(expected.name().as_str());
                out.append("`");
            },
        }
        assert(out@ =~= self@.message());
        out
    }
}

/// What a record that is ready to be indexed is, without its representation.
pub struct RecordModel {
    pub record_id: Seq<char>,
    pub searchable_text: Seq<char>,
    pub payload_json: Seq<char>,
    pub display_json: Seq<char>,
    pub filters: Seq<(Seq<char>, JsonModel)>,
    pub row_hash: Seq<char>,
}

impl View for PreparedRecord {
    type V = RecordModel;

    open spec fn view(&self) -> RecordModel {
        RecordModel {
            record_id: self.record_id@,
            searchable_text: self.searchable_text@,
            payload_json: self.payload_json@,
            display_json: self.display_json@,
            filters: json::json_fields(self.filters@),
            row_hash: self.row_hash@,
        }
    }
}

/// The models of a list of records.
pub open spec fn record_models(v: Seq<PreparedRecord>) -> Seq<RecordModel> {
    Seq::new(v.len(), |i: int| v[i]@)
}

/// What a schema asks of records, without its representation.
pub struct SchemaModel {
    pub dataset_id: Seq<char>,
    pub primary_key: Seq<char>,
    pub text_fields: Seq<Seq<char>>,
    pub display_fields: Seq<Seq<char>>,
    pub full_text_fields: Seq<Seq<char>>,
    pub source_uri_field: Option<Seq<char>>,
    pub source_label_field: Option<Seq<char>>,
    pub filter_fields: Seq<(Seq<char>, FilterModel)>,
}

/// What a filter field is, without its representation.
pub struct FilterModel {
    pub field_type: FilterType,
    pub label: Option<Seq<char>>,
    pub ui: FilterUi,
}

/// The view of an optional text.
pub open spec fn optional_text(s: Option<String>) -> Option<Seq<char>> {
    match s {
        Some(t) => Some(t@),
        None => None,
    }
}

impl View for FilterField {
    type V = FilterModel;

    open spec fn view(&self) -> FilterModel {
        FilterModel {
            field_type: self.field_type,
            label: optional_text(self.label),
            ui: self.ui,
        }
    }
}

/// The names and the types of filter fields.
pub open spec fn filter_models(s: Seq<(Seq<char>, FilterField)>) -> Seq<(Seq<char>, FilterModel)> {
    Seq::new(s.len(), |i: int| (s[i].0, s[i].1@))
}

impl View for DatasetSchema {
    type V = SchemaModel;

    open spec fn view(&self) -> SchemaModel {
        SchemaModel {
            dataset_id: self.dataset_id@,
            primary_key: self.primary_key@,
            text_fields: text::texts(self.text_fields@),
            display_fields: text::texts(self.display_fields@),
            full_text_fields: text::texts(self.full_text_fields@),
            source_uri_field: optional_text(self.source_uri_field),
            source_label_field: optional_text(self.source_label_field),
            filter_fields: filter_models(self.filter_fields@),
        }
    }
}

impl SchemaModel {
    /// What is wrong with the schema itself, if anything.
    pub open spec fn validate(self) -> Result<(), SchemaErrorModel> {
        if text::is_blank(self.dataset_id) {
            Err(SchemaErrorModel::MissingDatasetId)
        } else if text::is_blank(self.primary_key) {
            Err(SchemaErrorModel::MissingPrimaryKey)
        } else if self.text_fields.len() == 0 {
            Err(SchemaErrorModel::MissingTextFields)
        } else {
            Ok(())
        }
    }
}

/// The first of the named fields that is not there.
pub open spec fn first_missing(
    names: Seq<Seq<char>>,
    fields: Seq<(Seq<char>, JsonModel)>,
) -> Option<Seq<char>>
    decreases names.len(),
{
    if names.len() == 0 {
        None
    } else if text_map::value_of(fields, names[0]) is None {
        Some(names[0])
    } else {
        first_missing(names.drop_first(), fields)
    }
}

/// The first field with a nested value.
pub open spec fn first_nested(fields: Seq<(Seq<char>, JsonModel)>) -> Option<Seq<char>>
    decreases fields.len(),
{
    if fields.len() == 0 {
        None
    } else if fields[0].1.is_nested() {
        Some(fields[0].0)
    } else {
        first_nested(fields.drop_first())
    }
}

/// The texts of the named fields that hold more than white space, in the order of the names.
pub open spec fn text_parts(
    names: Seq<Seq<char>>,
    fields: Seq<(Seq<char>, JsonModel)>,
) -> Seq<Seq<char>>
    decreases names.len(),
{
    if names.len() == 0 {
        Seq::empty()
    } else {
        let rest = text_parts(names.drop_last(), fields);
        match text_map::value_of(fields, names.last()) {
            Some(value) => match value.scalar_text() {
                Some(t) => if text::is_blank(t) {
                    rest
                } else {
                    rest.push(t)
                },
                None => rest,
            },
            None => rest,
        }
    }
}

/// The searchable text of a record: the texts of its text fields, one to a line.
pub open spec fn searchable(
    names: Seq<Seq<char>>,
    fields: Seq<(Seq<char>, JsonModel)>,
) -> Seq<char> {
    text::joined(text_parts(names, fields), "\n"@)
}

/// The named fields, one by one; each has to be there.
pub open spec fn chosen_fields(
    names: Seq<Seq<char>>,
    fields: Seq<(Seq<char>, JsonModel)>,
) -> Seq<(Seq<char>, JsonModel)> {
    Seq::new(names.len(), |i: int| (names[i], text_map::value_of(fields, names[i])->0))
}

/// Whether `value` can be the value of a filter field of type `expected`.
pub open spec fn is_filter_value(value: JsonModel, expected: FilterType) -> bool {
    match expected {
        FilterType::Keyword => value is Text || value is Number || value is Bool,
        FilterType::Number => value is Number,
        FilterType::Date => match value {
            JsonModel::Text(s) => !text::is_blank(s),
            _ => false,
        },
        FilterType::Boolean => value is Bool,
    }
}

/// What is wrong with the first filter field that is missing or has a value of the wrong type.
pub open spec fn filter_error(
    specs: Seq<(Seq<char>, FilterModel)>,
    fields: Seq<(Seq<char>, JsonModel)>,
) -> Option<SchemaErrorModel>
    decreases specs.len(),
{
    if specs.len() == 0 {
        None
    } else {
        match text_map::value_of(fields, specs[0].0) {
            None => Some(SchemaErrorModel::MissingField(specs[0].0)),
            Some(value) => if !is_filter_value(value, specs[0].1.field_type) {
                Some(SchemaErrorModel::InvalidFilterValue(specs[0].0, specs[0].1.field_type))
            } else {
                filter_error(specs.drop_first(), fields)
            },
        }
    }
}

/// The names of filter fields.
pub open spec fn filter_names(specs: Seq<(Seq<char>, FilterModel)>) -> Seq<Seq<char>> {
    Seq::new(specs.len(), |i: int| specs[i].0)
}

/// An optional name as a list.
pub open spec fn optional_name(name: Option<Seq<char>>) -> Seq<Seq<char>> {
    match name {
        Some(n) => seq![n],
        None => Seq::empty(),
    }
}

/// The fields that a record must have besides its text fields, in the order in which they
/// are looked for.
pub open spec fn required_fields(schema: SchemaModel) -> Seq<Seq<char>> {
    schema.full_text_fields + optional_name(schema.source_uri_field) + optional_name(
        schema.source_label_field,
    ) + schema.display_fields
}

/// The text of the primary key of a record.
pub open spec fn record_key(
    schema: SchemaModel,
    fields: Seq<(Seq<char>, JsonModel)>,
) -> Option<Seq<char>> {
    match text_map::value_of(fields, schema.primary_key) {
        Some(value) => value.scalar_text(),
        None => None,
    }
}

/// The hexadecimal SHA-256 of the UTF-8 form of a text.
pub open spec fn text_hash(s: Seq<char>) -> Seq<char> {
    text::hex(sha256(vstd::utf8::encode_utf8(s)))
}

/// The record that the schema makes of `doc`, where none of the ids in `seen` may occur
/// again, or the first thing that is wrong with it.
pub open spec fn prepared(
    schema: SchemaModel,
    doc: Option<Seq<(Seq<char>, JsonModel)>>,
    seen: Set<Seq<char>>,
) -> Result<RecordModel, SchemaErrorModel> {
    match doc {
        None => Err(SchemaErrorModel::NotFlatObject),
        Some(fields) => {
            let id = record_key(schema, fields);
            let full_text = searchable(schema.text_fields, fields);
            if first_nested(fields) is Some {
                Err(SchemaErrorModel::NestedValue(first_nested(fields)->0))
            } else if id is None {
                Err(SchemaErrorModel::MissingField(schema.primary_key))
            } else if seen.contains(id->0) {
                Err(SchemaErrorModel::DuplicatePrimaryKey(id->0))
            } else if first_missing(schema.text_fields, fields) is Some {
                Err(SchemaErrorModel::MissingField(first_missing(schema.text_fields, fields)->0))
            } else if text::is_blank(full_text) {
                Err(SchemaErrorModel::EmptySearchableText(id->0))
            } else if first_missing(required_fields(schema), fields) is Some {
                Err(
                    SchemaErrorModel::MissingField(
                        first_missing(required_fields(schema), fields)->0,
                    ),
                )
            } else if filter_error(schema.filter_fields, fields) is Some {
                Err(filter_error(schema.filter_fields, fields)->0)
            } else {
                Ok(
                    RecordModel {
                        record_id: id->0,
                        searchable_text: full_text,
                        payload_json: json::json_object_text(fields),
                        display_json: json::json_object_text(
                            chosen_fields(schema.display_fields, fields),
                        ),
                        filters: chosen_fields(filter_names(schema.filter_fields), fields),
                        row_hash: text_hash(json::json_object_text(fields)),
                    },
                )
            }
        },
    }
}

/// The records that the schema makes of `docs` one after the other, or the first thing that
/// is wrong with them.
pub open spec fn prepared_all(
    schema: SchemaModel,
    docs: Seq<Option<Seq<(Seq<char>, JsonModel)>>>,
    seen: Set<Seq<char>>,
) -> Result<Seq<RecordModel>, SchemaErrorModel>
    decreases docs.len(),
{
    if docs.len() == 0 {
        Ok(Seq::empty())
    } else {
        match prepared(schema, docs[0], seen) {
            Err(e) => Err(e),
            Ok(record) => match prepared_all(
                schema,
                docs.drop_first(),
                seen.insert(record.record_id),
            ) {
                Err(e) => Err(e),
                Ok(rest) => Ok(seq![record] + rest),
            },
        }
    }
}

/// Whether what is stored of a record is read as it was: its payload as the document that it was
/// made of, and what it displays as the fields that are displayed; each unless it starts with
/// the name that `serde_json` keeps for itself.
pub open spec fn is_read_back(
    schema: SchemaModel,
    fields: Seq<(Seq<char>, JsonModel)>,
    record: RecordModel,
) -> bool {
    let shown = chosen_fields(schema.display_fields, fields);
    &&& json::is_plain(fields) ==> json::json_document(
        vstd::utf8::encode_utf8(record.payload_json),
    ) == Some(Some(fields))
    &&& json::is_plain(shown) ==> json::json_document(
        vstd::utf8::encode_utf8(record.display_json),
    ) == Some(Some(text_map::put_all(shown)))
}

/// Whether what is stored of records is read as it was, as far as the numbers of the documents
/// that they were made of are written like numbers that were read.
pub open spec fn are_read_back(
    schema: SchemaModel,
    docs: Seq<Option<Seq<(Seq<char>, JsonModel)>>>,
    records: Seq<RecordModel>,
) -> bool {
    forall|i: int|
        0 <= i < records.len() && i < docs.len() && docs[i] is Some && json::has_read_numbers(
            docs[i]->0,
        ) ==> is_read_back(schema, docs[i]->0, #[trigger] records[i])
}

/// The models of a list of JSON texts that were read.
pub open spec fn document_models(
    docs: Seq<JsonDocument>,
) -> Seq<Option<Seq<(Seq<char>, JsonModel)>>> {
    Seq::new(docs.len(), |i: int| docs[i]@)
}

/// The SHA-256 digest of `bytes`.
pub uninterp spec fn sha256(bytes: Seq<u8>) -> Seq<u8>;

/// `sha2::Sha256`, fed with `bytes` and finished: a function of the bytes alone.
#[verifier::external_body]
fn sha256_digest(bytes: &[u8]) -> (r: Vec<u8>)
    ensures
        r@ == sha256(bytes@),
        r@.len() == 32,
{
    let mut hasher = <sha2::Sha256 as sha2::Digest>::new();
    sha2::Digest::update(&mut hasher, bytes);
    sha2::Digest::finalize(hasher).to_vec()
}

/// The hexadecimal SHA-256 of `bytes`.
pub fn sha256_hex(bytes: &[u8]) -> (r: String)
    ensures
        r@ == text::hex(sha256(bytes@)),
        r@.len() == 64,
{
    let digest = sha256_digest(bytes);
    hex_text(&digest)
}

/// Checks that `value` can be the value of the filter field `field` of type `expected`.
pub fn validate_filter_value(field: &str, value: &JsonValue, expected: FilterType) -> (r: Result<
    (),
    SchemaError,
>)
    ensures
        is_filter_value(value@, expected) ==> r == Ok::<(), SchemaError>(()),
        !is_filter_value(value@, expected) ==> r is Err && r->Err_0@
            == SchemaErrorModel::InvalidFilterValue(field@, expected),
{
    let ok = match expected {
        FilterType::Keyword => matches!(
            value,
            JsonValue::Text(_) | JsonValue::Number(_) | JsonValue::Bool(_)
        ),
        FilterType::Number => matches!(value, JsonValue::Number(_)),
        FilterType::Date => match value {
            JsonValue::Text(s) => !is_blank_text(s.as_str()),
            _ => false,
        },
        FilterType::Boolean => matches!(value, JsonValue::Bool(_)),
    };
    if ok {
        Ok(())
    } else {
        Err(SchemaError::InvalidFilterValue { field: field.to_string(), expected })
    }
}

/// The first of the named fields that is not there.
fn find_missing(names: &Vec<String>, fields: &TextMap<JsonValue>) -> (r: Option<String>)
    requires
        fields.wf(),
    ensures
        optional_text(r) == first_missing(text::texts(names@), json::json_fields(fields@)),
{
    let ghost f = json::json_fields(fields@);
    let ghost all = text::texts(names@);
    let mut i: usize = 0;
    assert(all.skip(0) =~= all);
    while i < names.len()
        invariant
            fields.wf(),
            i <= names@.len(),
            f == json::json_fields(fields@),
            all == text::texts(names@),
            first_missing(all, f) == first_missing(all.skip(i as int), f),
        decreases names@.len() - i,
    {
        assert(all.skip(i as int)[0] == names@[i as int]@);
        if field_value(fields, names[i].as_str()).is_none() {
            return Some(names[i].clone());
        }
        assert(all.skip(i as int).drop_first() =~= all.skip(i + 1));
        i = i + 1;
    }
    None
}

/// The first field with a nested value.
fn find_nested(fields: &TextMap<JsonValue>) -> (r: Option<String>)
    ensures
        optional_text(r) == first_nested(json::json_fields(fields@)),
{
    let ghost f = json::json_fields(fields@);
    let mut i: usize = 0;
    assert(f.skip(0) =~= f);
    while i < fields.len()
        invariant
            i <= fields@.len(),
            f == json::json_fields(fields@),
            first_nested(f) == first_nested(f.skip(i as int)),
        decreases fields@.len() - i,
    {
        assert(f.skip(i as int)[0] == f[i as int]);
        if fields.value_at(i).is_nested() {
            return Some(fields.key_at(i).clone());
        }
        assert(f.skip(i as int).drop_first() =~= f.skip(i + 1));
        i = i + 1;
    }
    None
}

/// The texts of the named fields that hold more than white space.
fn collect_text_parts(names: &Vec<String>, fields: &TextMap<JsonValue>) -> (r: Vec<String>)
    requires
        fields.wf(),
    ensures
        text::texts(r@) == text_parts(text::texts(names@), json::json_fields(fields@)),
{
    let ghost f = json::json_fields(fields@);
    let ghost all = text::texts(names@);
    let mut parts: Vec<String> = Vec::new();
    let mut i: usize = 0;
    assert(text::texts(parts@) =~= text_parts(all.take(0), f));
    while i < names.len()
        invariant
            fields.wf(),
            i <= names@.len(),
            f == json::json_fields(fields@),
            all == text::texts(names@),
            text::texts(parts@) == text_parts(all.take(i as int), f),
        decreases names@.len() - i,
    {
        let ghost before = text::texts(parts@);
        assert(all.take(i + 1).drop_last() =~= all.take(i as int));
        assert(all.take(i + 1).last() == names@[i as int]@);
        if let Some(value) = field_value(fields, names[i].as_str()) {
            if let Some(t) = value.scalar_to_string() {
                if !is_blank_text(t.as_str()) {
                    parts.push(t);
                    assert(text::texts(parts@) =~= before.push(t@));
                }
            }
        }
        i = i + 1;
    }
    assert(all.take(i as int) =~= all);
    parts
}

/// The named fields, one by one.
fn choose_fields(names: &Vec<String>, fields: &TextMap<JsonValue>) -> (r: Vec<(String, JsonValue)>)
    requires
        fields.wf(),
        first_missing(text::texts(names@), json::json_fields(fields@)) is None,
    ensures
        json::field_models(r@) == chosen_fields(
            text::texts(names@),
            json::json_fields(fields@),
        ),
{
    let ghost f = json::json_fields(fields@);
    let ghost all = text::texts(names@);
    let mut out: Vec<(String, JsonValue)> = Vec::new();
    let mut i: usize = 0;
    assert(all.skip(0) =~= all);
    while i < names.len()
        invariant
            fields.wf(),
            i <= names@.len(),
            f == json::json_fields(fields@),
            all == text::texts(names@),
            first_missing(all.skip(i as int), f) is None,
            out@.len() == i,
            forall|k: int|
                0 <= k < i ==> (#[trigger] out@[k]).0@ == all[k] && Some(out@[k].1@)
                    == text_map::value_of(f, all[k]),
        decreases names@.len() - i,
    {
        assert(all.skip(i as int)[0] == names@[i as int]@);
        assert(all.skip(i as int).drop_first() =~= all.skip(i + 1));
        if let Some(value) = field_value(fields, names[i].as_str()) {
            out.push((names[i].clone(), value.copy()));
        }
        i = i + 1;
    }
    assert(json::field_models(out@) =~= chosen_fields(all, f));
    out
}

proof fn lemma_first_missing_concat(
    a: Seq<Seq<char>>,
    b: Seq<Seq<char>>,
    fields: Seq<(Seq<char>, JsonModel)>,
)
    ensures
        first_missing(a + b, fields) == (if first_missing(a, fields) is Some {
            first_missing(a, fields)
        } else {
            first_missing(b, fields)
        }),
    decreases a.len(),
{
    if a.len() == 0 {
        assert(a + b =~= b);
    } else {
        assert((a + b)[0] == a[0]);
        assert((a + b).drop_first() =~= a.drop_first() + b);
        lemma_first_missing_concat(a.drop_first(), b, fields);
    }
}

/// The optional field, where the schema names one that is not there.
fn find_missing_optional(name: &Option<String>, fields: &TextMap<JsonValue>) -> (r: Option<String>)
    requires
        fields.wf(),
    ensures
        optional_text(r) == first_missing(
            optional_name(optional_text(*name)),
            json::json_fields(fields@),
        ),
{
    proof {
        reveal_with_fuel(first_missing, 2);
    }
    match name {
        None => None,
        Some(n) => {
            assert(optional_name(optional_text(*name))[0] == n@);
            if field_value(fields, n.as_str()).is_none() {
                Some(n.clone())
            } else {
                None
            }
        },
    }
}

/// The values of the filter fields, or what is wrong with the first bad one.
fn collect_filters(specs: &TextMap<FilterField>, fields: &TextMap<JsonValue>) -> (r: Result<
    TextMap<JsonValue>,
    SchemaError,
>)
    requires
        specs.wf(),
        fields.wf(),
    ensures
        match filter_error(filter_models(specs@), json::json_fields(fields@)) {
            Some(e) => r is Err && r->Err_0@ == e,
            None => r is Ok && r->Ok_0.wf() && json::json_fields(r->Ok_0@) == chosen_fields(
                filter_names(filter_models(specs@)),
                json::json_fields(fields@),
            ),
        },
{
    let ghost f = json::json_fields(fields@);
    let ghost all = filter_models(specs@);
    let mut out: Vec<(String, JsonValue)> = Vec::new();
    let mut i: usize = 0;
    assert(all.skip(0) =~= all);
    while i < specs.len()
        invariant
            fields.wf(),
            i <= specs@.len(),
            f == json::json_fields(fields@),
            all == filter_models(specs@),
            filter_error(all, f) == filter_error(all.skip(i as int), f),
            out@.len() == i,
            forall|k: int|
                0 <= k < i ==> (#[trigger] out@[k]).0@ == all[k].0 && Some(out@[k].1@)
                    == text_map::value_of(f, all[k].0),
        decreases specs@.len() - i,
    {
        assert(all.skip(i as int)[0] == all[i as int]);
        assert(all.skip(i as int).drop_first() =~= all.skip(i + 1));
        let name = specs.key_at(i);
        match field_value(fields, name.as_str()) {
            None => {
                return Err(SchemaError::MissingField(name.clone()));
            },
            Some(value) => {
                let expected = specs.value_at(i).field_type;
                if let Err(e) = validate_filter_value(name.as_str(), value, expected) {
                    return Err(e);
                }
                out.push((name.clone(), value.copy()));
            },
        }
        i = i + 1;
    }
    proof {
        let e = text_map::entry_views(out@);
        assert forall|x: int, y: int| 0 <= x < y < e.len() implies text::text_lt(
            (#[trigger] e[x]).0,
            (#[trigger] e[y]).0,
        ) by {
            assert(out@[x].0@ == all[x].0);
            assert(out@[y].0@ == all[y].0);
            assert(text::text_lt(specs@[x].0, specs@[y].0));
        }
        assert(json::json_fields(e) =~= chosen_fields(filter_names(all), f));
    }
    Ok(TextMap::from_ordered(out))
}

impl FilterField {
    /// A field equal to this one.
    pub fn copy(&self) -> (r: FilterField)
        ensures
            r == *self,
    {
        FilterField {
            field_type: self.field_type,
            label: match &self.label {
                Some(s) => Some(s.clone()),
                None => None,
            },
            ui: self.ui,
        }
    }
}

fn copy_names(v: &Vec<String>) -> (r: Vec<String>)
    ensures
        r@ == v@,
{
    let mut out: Vec<String> = Vec::new();
    let mut i: usize = 0;
    while i < v.len()
        invariant
            i <= v@.len(),
            out@ == v@.take(i as int),
        decreases v@.len() - i,
    {
        out.push(v[i].clone());
        assert(out@ =~= v@.take(i + 1));
        i = i + 1;
    }
    assert(v@.take(i as int) =~= v@);
    out
}

fn copy_name(v: &Option<String>) -> (r: Option<String>)
    ensures
        r == *v,
{
    match v {
        Some(s) => Some(s.clone()),
        None => None,
    }
}

fn copy_filter_fields(fields: &TextMap<FilterField>) -> (r: TextMap<FilterField>)
    requires
        fields.wf(),
    ensures
        r.wf(),
        r@ == fields@,
{
    let mut list: Vec<(String, FilterField)> = Vec::new();
    let mut i: usize = 0;
    assert(text_map::entry_views(list@) =~= fields@.take(0));
    while i < fields.len()
        invariant
            i <= fields@.len(),
            text_map::entry_views(list@) == fields@.take(i as int),
        decreases fields@.len() - i,
    {
        let ghost before = text_map::entry_views(list@);
        list.push((fields.key_at(i).clone(), fields.value_at(i).copy()));
        proof {
            assert(text_map::entry_views(list@) =~= before.push(fields@[i as int]));
            assert(text_map::entry_views(list@) =~= fields@.take(i + 1));
        }
        i = i + 1;
    }
    assert(fields@.take(i as int) =~= fields@);
    TextMap::from_ordered(list)
}

impl DatasetSchema {
    /// A schema equal to this one.
    pub fn copy(&self) -> (r: DatasetSchema)
        requires
            self.wf(),
        ensures
            r.wf(),
            r@ == self@,
    {
        DatasetSchema {
            dataset_id: self.dataset_id.clone(),
            primary_key: self.primary_key.clone(),
            text_fields: copy_names(&self.text_fields),
            display_fields: copy_names(&self.display_fields),
            full_text_fields: copy_names(&self.full_text_fields),
            source_uri_field: copy_name(&self.source_uri_field),
            source_label_field: copy_name(&self.source_label_field),
            filter_fields: copy_filter_fields(&self.filter_fields),
        }
    }

    /// The filter fields stand in the order of their names, none of them twice.
    pub open spec fn wf(&self) -> bool {
        self.filter_fields.wf()
    }

    /// Checks what every schema needs.
    pub fn validate(&self) -> (r: Result<(), SchemaError>)
        ensures
            match self@.validate() {
                Ok(_) => r == Ok::<(), SchemaError>(()),
                Err(e) => r is Err && r->Err_0@ == e,
            },
    {
        if is_blank_text(self.dataset_id.as_str()) {
            return Err(SchemaError::MissingDatasetId);
        }
        if is_blank_text(self.primary_key.as_str()) {
            return Err(SchemaError::MissingPrimaryKey);
        }
        if self.text_fields.len() == 0 {
            return Err(SchemaError::MissingTextFields);
        }
        Ok(())
    }

    /// The first of the fields that a record must have besides its text fields that it lacks.
    fn find_missing_required(&self, fields: &TextMap<JsonValue>) -> (r: Option<String>)
        requires
            fields.wf(),
        ensures
            optional_text(r) == first_missing(required_fields(self@), json::json_fields(fields@)),
    {
        proof {
            let f = json::json_fields(fields@);
            let a = self@.full_text_fields;
            let b = optional_name(self@.source_uri_field);
            let c = optional_name(self@.source_label_field);
            let d = self@.display_fields;
            lemma_first_missing_concat(a, b, f);
            lemma_first_missing_concat(a + b, c, f);
            lemma_first_missing_concat(a + b + c, d, f);
        }
        let missing = find_missing(&self.full_text_fields, fields);
        if missing.is_some() {
            return missing;
        }
        let missing = find_missing_optional(&self.source_uri_field, fields);
        if missing.is_some() {
            return missing;
        }
        let missing = find_missing_optional(&self.source_label_field, fields);
        if missing.is_some() {
            return missing;
        }
        find_missing(&self.display_fields, fields)
    }

    /// The record that the schema makes of `doc`; none of the ids in `seen` may occur again.
    pub fn prepare_record(&self, doc: &JsonDocument, seen: &TextMap<()>) -> (r: Result<
        PreparedRecord,
        SchemaError,
    >)
        requires
            self.wf(),
            doc.wf(),
            seen.wf(),
        ensures
            match prepared(
                self@,
                doc@,
                Set::new(|k: Seq<char>| text_map::has_key(seen@, k)),
            ) {
                Ok(m) => r is Ok && r->Ok_0@ == m && r->Ok_0.wf(),
                Err(e) => r is Err && r->Err_0@ == e,
            },
            r is Ok ==> doc@ is Some,
            r is Ok && json::has_read_numbers(doc@->0) ==> is_read_back(
                self@,
                doc@->0,
                r->Ok_0@,
            ),
    {
        let fields = match doc {
            JsonDocument::Object(fields) => fields,
            JsonDocument::Other => {
                return Err(SchemaError::NotFlatObject);
            },
        };
        if let Some(field) = find_nested(fields) {
            return Err(SchemaError::NestedValue { field });
        }
        let record_id = match field_value(fields, self.primary_key.as_str()) {
            None => {
                return Err(SchemaError::MissingField(self.primary_key.clone()));
            },
            Some(value) => match value.scalar_to_string() {
                None => {
                    return Err(SchemaError::MissingField(self.primary_key.clone()));
                },
                Some(t) => t,
            },
        };
        if seen.contains_key(record_id.as_str()) {
            return Err(SchemaError::DuplicatePrimaryKey(record_id));
        }
        if let Some(field) = find_missing(&self.text_fields, fields) {
            return Err(SchemaError::MissingField(field));
        }
        let parts = collect_text_parts(&self.text_fields, fields);
        let searchable_text = join_texts(&parts, "\n");
        if is_blank_text(searchable_text.as_str()) {
            return Err(SchemaError::EmptySearchableText(record_id));
        }
        if let Some(field) = self.find_missing_required(fields) {
            return Err(SchemaError::MissingField(field));
        }
        let filters = match collect_filters(&self.filter_fields, fields) {
            Err(e) => {
                return Err(e);
            },
            Ok(filters) => filters,
        };
        proof {
            let f = json::json_fields(fields@);
            let a = self@.full_text_fields + optional_name(self@.source_uri_field)
                + optional_name(self@.source_label_field);
            lemma_first_missing_concat(a, self@.display_fields, f);
            lemma_first_nested(f);
            lemma_chosen_fields(self@.display_fields, f);
            json::lemma_json_fields(fields@, self@.primary_key);
            text_map::lemma_put_all_ordered(f);
        }
        let display = choose_fields(&self.display_fields, fields);
        let payload_json = document_json(fields);
        let display_json = object_json(&display);
        let row_hash = sha256_hex(payload_json.as_str().as_bytes());
        Ok(
            PreparedRecord {
                record_id,
                searchable_text,
                payload_json,
                display_json,
                filters,
                row_hash,
            },
        )
    }

    /// The records that the schema makes of `values`, or the first thing that is wrong with
    /// the schema or with them.
    pub fn prepare_records(&self, values: &Vec<JsonDocument>) -> (r: Result<
        Vec<PreparedRecord>,
        SchemaError,
    >)
        requires
            self.wf(),
            forall|i: int| 0 <= i < values@.len() ==> (#[trigger] values@[i]).wf(),
        ensures
            match self@.validate() {
                Err(e) => r is Err && r->Err_0@ == e,
                Ok(_) => match prepared_all(self@, document_models(values@), Set::empty()) {
                    Ok(m) => r is Ok && record_models(r->Ok_0@) == m && are_read_back(
                        self@,
                        document_models(values@),
                        m,
                    ) && forall|i: int|
                        0 <= i < r->Ok_0@.len() ==> (#[trigger] r->Ok_0@[i]).wf(),
                    Err(e) => r is Err && r->Err_0@ == e,
                },
            },
    {
        if let Err(e) = self.validate() {
            return Err(e);
        }
        let mut seen: TextMap<()> = TextMap::new();
        let mut out: Vec<PreparedRecord> = Vec::new();
        let mut i: usize = 0;
        let ghost docs = document_models(values@);
        let ghost mut ids: Set<Seq<char>> = Set::empty();
        let ghost all = prepared_all(self@, docs, Set::empty());
        proof {
            assert(docs.skip(0) =~= docs);
            assert(Set::new(|k: Seq<char>| text_map::has_key(seen@, k)) =~= ids);
            if all is Ok {
                assert(record_models(out@) + all->Ok_0 =~= all->Ok_0);
            }
        }
        while i < values.len()
            invariant
                self.wf(),
                self@.validate() is Ok,
                forall|k: int| 0 <= k < values@.len() ==> (#[trigger] values@[k]).wf(),
                seen.wf(),
                i <= values@.len(),
                docs == document_models(values@),
                all == prepared_all(self@, docs, Set::empty()),
                ids == Set::new(|k: Seq<char>| text_map::has_key(seen@, k)),
                match prepared_all(self@, docs.skip(i as int), ids) {
                    Ok(rest) => all == Ok::<Seq<RecordModel>, SchemaErrorModel>(
                        record_models(out@) + rest,
                    ),
                    Err(e) => all == Err::<Seq<RecordModel>, SchemaErrorModel>(e),
                },
                forall|k: int| 0 <= k < out@.len() ==> (#[trigger] out@[k]).wf(),
                out@.len() == i,
                are_read_back(self@, docs, record_models(out@)),
            decreases values@.len() - i,
        {
            let ghost before = record_models(out@);
            let ghost seen_before = seen@;
            proof {
                assert(docs.skip(i as int)[0] == values@[i as int]@);
                assert(docs.skip(i as int).drop_first() =~= docs.skip(i + 1));
            }
            match self.prepare_record(&values[i], &seen) {
                Err(e) => {
                    return Err(e);
                },
                Ok(record) => {
                    let ghost id = record.record_id@;
                    seen.insert(record.record_id.clone(), ());
                    out.push(record);
                    proof {
                        assert(record_models(out@) =~= before.push(record@));
                        assert(docs[i as int] == values@[i as int]@);
                        assert forall|k: int|
                            0 <= k < record_models(out@).len() && k < docs.len() && docs[k] is Some
                                && json::has_read_numbers(docs[k]->0) implies is_read_back(
                            self@,
                            docs[k]->0,
                            #[trigger] record_models(out@)[k],
                        ) by {
                            if k < i {
                                assert(record_models(out@)[k] == before[k]);
                            }
                        }
                        let now = Set::new(|k: Seq<char>| text_map::has_key(seen@, k));
                        assert forall|k: Seq<char>| now.contains(k) == ids.insert(id).contains(
                            k,
                        ) by {
                            assert(text_map::value_of(seen@, k) == (if k == id {
                                Some(())
                            } else {
                                text_map::value_of(seen_before, k)
                            }));
                        }
                        assert(now =~= ids.insert(id));
                        ids = now;
                        let rest = prepared_all(self@, docs.skip(i + 1), ids);
                        if rest is Ok {
                            assert(before + (seq![record@] + rest->Ok_0) =~= record_models(out@)
                                + rest->Ok_0);
                        }
                    }
                },
            }
            i = i + 1;
        }
        proof {
            assert(docs.skip(i as int) =~= Seq::empty());
            assert(record_models(out@) + Seq::<RecordModel>::empty() =~= record_models(out@));
        }
        Ok(out)
    }
}

/// Fields that are chosen from flat ones are flat, and their numbers are written like theirs.
proof fn lemma_chosen_fields(names: Seq<Seq<char>>, fields: Seq<(Seq<char>, JsonModel)>)
    requires
        first_missing(names, fields) is None,
    ensures
        json::is_flat(fields) ==> json::is_flat(chosen_fields(names, fields)),
        json::has_read_numbers(fields) ==> json::has_read_numbers(chosen_fields(names, fields)),
{
    lemma_first_missing(names, fields);
    let chosen = chosen_fields(names, fields);
    assert forall|i: int| 0 <= i < chosen.len() implies exists|k: int|
        0 <= k < fields.len() && (#[trigger] fields[k]).1 == (#[trigger] chosen[i]).1 by {
        assert(text_map::value_of(fields, names[i]) is Some);
        let k = choose|k: int| text_map::is_key_at(fields, names[i], k);
        assert(fields[k].1 == chosen[i].1);
    }
}

/// What a record displays are the fields that the schema names, with their values.
pub proof fn law_displayed_fields(
    names: Seq<Seq<char>>,
    fields: Seq<(Seq<char>, JsonModel)>,
    name: Seq<char>,
)
    requires
        first_missing(names, fields) is None,
    ensures
        text_map::value_of(text_map::put_all(chosen_fields(names, fields)), name) == (
        if names.contains(name) {
            text_map::value_of(fields, name)
        } else {
            None
        }),
{
    let chosen = chosen_fields(names, fields);
    lemma_first_missing(names, fields);
    text_map::lemma_put_all(chosen);
    assert(text_map::has_key(text_map::put_all(chosen), name) == text_map::has_key(chosen, name));
    if names.contains(name) {
        let i = choose|i: int| 0 <= i < names.len() && names[i] == name;
        assert(text_map::is_key_at(chosen, name, i));
        let k = choose|k: int|
            #[trigger] text_map::is_key_at(chosen, name, k) && text_map::value_of(
                text_map::put_all(chosen),
                name,
            ) == Some(chosen[k].1);
        assert(names[k] == name);
        assert(text_map::value_of(fields, names[k]) is Some);
    } else if text_map::has_key(chosen, name) {
        let i = choose|i: int| text_map::is_key_at(chosen, name, i);
        assert(names[i] == name);
    }
}

/// There is no first nested field exactly when no field is nested.
pub proof fn lemma_first_nested(fields: Seq<(Seq<char>, JsonModel)>)
    ensures
        first_nested(fields) is None <==> forall|i: int|
            0 <= i < fields.len() ==> !(#[trigger] fields[i]).1.is_nested(),
    decreases fields.len(),
{
    if fields.len() > 0 {
        let rest = fields.drop_first();
        lemma_first_nested(rest);
        if first_nested(fields) is None {
            assert forall|i: int| 0 <= i < fields.len() implies !(
            #[trigger] fields[i]).1.is_nested() by {
                if i > 0 {
                    assert(fields[i] == rest[i - 1]);
                }
            }
        } else if first_nested(rest) is Some {
            let i = choose|i: int| 0 <= i < rest.len() && (#[trigger] rest[i]).1.is_nested();
            assert(fields[i + 1] == rest[i]);
        }
    }
}

/// There is no first missing field exactly when every named field is there.
pub proof fn lemma_first_missing(names: Seq<Seq<char>>, fields: Seq<(Seq<char>, JsonModel)>)
    ensures
        first_missing(names, fields) is None <==> forall|i: int|
            0 <= i < names.len() ==> text_map::value_of(fields, #[trigger] names[i]) is Some,
    decreases names.len(),
{
    if names.len() > 0 {
        let rest = names.drop_first();
        lemma_first_missing(rest, fields);
        if first_missing(names, fields) is None {
            assert forall|i: int| 0 <= i < names.len() implies text_map::value_of(
                fields,
                #[trigger] names[i],
            ) is Some by {
                if i > 0 {
                    assert(names[i] == rest[i - 1]);
                }
            }
        } else if text_map::value_of(fields, names[0]) is Some {
            let i = choose|i: int|
                0 <= i < rest.len() && text_map::value_of(fields, #[trigger] rest[i]) is None;
            assert(names[i + 1] == rest[i]);
        }
    }
}

/// Whether the record has a value of the right type in the filter field `spec`.
pub open spec fn has_filter_value(
    spec: (Seq<char>, FilterModel),
    fields: Seq<(Seq<char>, JsonModel)>,
) -> bool {
    match text_map::value_of(fields, spec.0) {
        Some(value) => is_filter_value(value, spec.1.field_type),
        None => false,
    }
}

/// Nothing is wrong with the filter fields exactly when each has a value of its type.
pub proof fn lemma_filter_error(
    specs: Seq<(Seq<char>, FilterModel)>,
    fields: Seq<(Seq<char>, JsonModel)>,
)
    ensures
        filter_error(specs, fields) is None <==> forall|i: int|
            0 <= i < specs.len() ==> has_filter_value(#[trigger] specs[i], fields),
    decreases specs.len(),
{
    if specs.len() > 0 {
        let rest = specs.drop_first();
        lemma_filter_error(rest, fields);
        if filter_error(specs, fields) is None {
            assert forall|i: int| 0 <= i < specs.len() implies has_filter_value(
                #[trigger] specs[i],
                fields,
            ) by {
                if i > 0 {
                    assert(specs[i] == rest[i - 1]);
                }
            }
        } else if has_filter_value(specs[0], fields) {
            let i = choose|i: int|
                0 <= i < rest.len() && !has_filter_value(#[trigger] rest[i], fields);
            assert(specs[i + 1] == rest[i]);
        }
    }
}

/// Whether a record is as the schema asks, taken by itself: a flat object with a primary key,
/// a text to search, every field that the schema names, and filter values of their types.
pub open spec fn is_acceptable(
    schema: SchemaModel,
    doc: Option<Seq<(Seq<char>, JsonModel)>>,
) -> bool {
    match doc {
        None => false,
        Some(fields) => {
            &&& forall|i: int| 0 <= i < fields.len() ==> !(#[trigger] fields[i]).1.is_nested()
            &&& record_key(schema, fields) is Some
            &&& forall|i: int|
                0 <= i < schema.text_fields.len() ==> text_map::value_of(
                    fields,
                    #[trigger] schema.text_fields[i],
                ) is Some
            &&& !text::is_blank(searchable(schema.text_fields, fields))
            &&& forall|i: int|
                0 <= i < required_fields(schema).len() ==> text_map::value_of(
                    fields,
                    #[trigger] required_fields(schema)[i],
                ) is Some
            &&& forall|i: int|
                0 <= i < schema.filter_fields.len() ==> has_filter_value(
                    #[trigger] schema.filter_fields[i],
                    fields,
                )
        },
    }
}

/// The text of the primary key of a JSON text that was read.
pub open spec fn document_key(
    schema: SchemaModel,
    doc: Option<Seq<(Seq<char>, JsonModel)>>,
) -> Option<Seq<char>> {
    match doc {
        Some(fields) => record_key(schema, fields),
        None => None,
    }
}

/// A record is made of exactly the acceptable texts whose key was not seen before.
pub proof fn lemma_prepared(
    schema: SchemaModel,
    doc: Option<Seq<(Seq<char>, JsonModel)>>,
    seen: Set<Seq<char>>,
)
    ensures
        prepared(schema, doc, seen) is Ok <==> is_acceptable(schema, doc) && !seen.contains(
            document_key(schema, doc)->0,
        ),
        prepared(schema, doc, seen) is Ok ==> document_key(schema, doc) == Some(
            prepared(schema, doc, seen)->Ok_0.record_id,
        ),
{
    if let Some(fields) = doc {
        lemma_first_nested(fields);
        lemma_first_missing(schema.text_fields, fields);
        lemma_first_missing(required_fields(schema), fields);
        lemma_filter_error(schema.filter_fields, fields);
    }
}

/// A dataset is accepted exactly when each of its records is acceptable and no two of them,
/// nor one of them and one seen before, have the same primary key. Then there is one record
/// for each text, in order, with the key of that text.
pub proof fn law_prepared_records(
    schema: SchemaModel,
    docs: Seq<Option<Seq<(Seq<char>, JsonModel)>>>,
    seen: Set<Seq<char>>,
)
    ensures
        prepared_all(schema, docs, seen) is Ok <==> {
            &&& forall|i: int| 0 <= i < docs.len() ==> is_acceptable(schema, #[trigger] docs[i])
            &&& forall|i: int|
                0 <= i < docs.len() ==> !seen.contains(
                    document_key(schema, #[trigger] docs[i])->0,
                )
            &&& forall|i: int, j: int|
                0 <= i < j < docs.len() ==> document_key(schema, #[trigger] docs[i])
                    != document_key(schema, #[trigger] docs[j])
        },
        prepared_all(schema, docs, seen) matches Ok(records) ==> {
            &&& records.len() == docs.len()
            &&& forall|i: int|
                0 <= i < docs.len() ==> document_key(schema, #[trigger] docs[i]) == Some(
                    records[i].record_id,
                )
        },
    decreases docs.len(),
{
    if docs.len() > 0 {
        let first = docs[0];
        let rest = docs.drop_first();
        lemma_prepared(schema, first, seen);
        let all = prepared_all(schema, docs, seen);
        match prepared(schema, first, seen) {
            Err(e) => {
                if is_acceptable(schema, first) {
                    assert(seen.contains(document_key(schema, docs[0])->0));
                }
            },
            Ok(record) => {
                let more = seen.insert(record.record_id);
                law_prepared_records(schema, rest, more);
                let tail = prepared_all(schema, rest, more);
                if tail is Ok {
                    assert forall|i: int| 0 <= i < docs.len() implies is_acceptable(
                        schema,
                        #[trigger] docs[i],
                    ) && !seen.contains(document_key(schema, docs[i])->0) && document_key(
                        schema,
                        docs[i],
                    ) == Some(all->Ok_0[i].record_id) by {
                        if i > 0 {
                            assert(docs[i] == rest[i - 1]);
                            assert(!more.contains(document_key(schema, rest[i - 1])->0));
                        }
                    }
                    assert forall|i: int, j: int| 0 <= i < j < docs.len() implies document_key(
                        schema,
                        #[trigger] docs[i],
                    ) != document_key(schema, #[trigger] docs[j]) by {
                        assert(docs[j] == rest[j - 1]);
                        if i > 0 {
                            assert(docs[i] == rest[i - 1]);
                        } else {
                            assert(!more.contains(document_key(schema, rest[j - 1])->0));
                        }
                    }
                } else {
                    let fine = forall|i: int|
                        0 <= i < rest.len() ==> is_acceptable(schema, #[trigger] rest[i]);
                    if !fine {
                        let i = choose|i: int|
                            0 <= i < rest.len() && !is_acceptable(schema, #[trigger] rest[i]);
                        assert(docs[i + 1] == rest[i]);
                    } else if exists|i: int|
                        0 <= i < rest.len() && more.contains(
                            document_key(schema, #[trigger] rest[i])->0,
                        ) {
                        let i = choose|i: int|
                            0 <= i < rest.len() && more.contains(
                                document_key(schema, #[trigger] rest[i])->0,
                            );
                        assert(docs[i + 1] == rest[i]);
                        assert(is_acceptable(schema, rest[i]));
                        assert(document_key(schema, rest[i]) is Some);
                        if document_key(schema, rest[i])->0 == record.record_id {
                            assert(document_key(schema, docs[0]) == document_key(
                                schema,
                                docs[i + 1],
                            ));
                        }
                    } else {
                        let (i, j) = choose|i: int, j: int|
                            0 <= i < j < rest.len() && document_key(schema, #[trigger] rest[i])
                                == document_key(schema, #[trigger] rest[j]);
                        assert(docs[i + 1] == rest[i]);
                        assert(docs[j + 1] == rest[j]);
                    }
                }
            },
        }
    }
}

/// The records of the first documents of an accepted dataset are the first of its records.
pub proof fn law_first_records(
    schema: SchemaModel,
    docs: Seq<Option<Seq<(Seq<char>, JsonModel)>>>,
    seen: Set<Seq<char>>,
    n: int,
)
    requires
        prepared_all(schema, docs, seen) is Ok,
        0 <= n <= docs.len(),
    ensures
        prepared_all(schema, docs.take(n), seen) == Ok::<Seq<RecordModel>, SchemaErrorModel>(
            prepared_all(schema, docs, seen)->Ok_0.take(n),
        ),
    decreases docs.len(),
{
    law_prepared_records(schema, docs, seen);
    let all = prepared_all(schema, docs, seen)->Ok_0;
    if n == 0 {
        assert(docs.take(0).len() == 0);
        assert(all.take(0) =~= Seq::empty());
    } else {
        let record = prepared(schema, docs[0], seen)->Ok_0;
        let rest = docs.drop_first();
        let more = seen.insert(record.record_id);
        law_first_records(schema, rest, more, n - 1);
        assert(docs.take(n).drop_first() =~= rest.take(n - 1));
        assert(all.take(n) =~= seq![record] + prepared_all(schema, rest, more)->Ok_0.take(n - 1));
    }
}

/// The records of an accepted dataset have ids that all differ.
pub proof fn law_record_ids_differ(
    schema: SchemaModel,
    docs: Seq<Option<Seq<(Seq<char>, JsonModel)>>>,
)
    requires
        prepared_all(schema, docs, Set::empty()) is Ok,
    ensures
        ({
            let records = prepared_all(schema, docs, Set::empty())->Ok_0;
            forall|i: int, j: int|
                0 <= i < j < records.len() ==> (#[trigger] records[i]).record_id != (
                #[trigger] records[j]).record_id
        }),
{
    law_prepared_records(schema, docs, Set::empty());
    let records = prepared_all(schema, docs, Set::empty())->Ok_0;
    assert forall|i: int, j: int| 0 <= i < j < records.len() implies (
    #[trigger] records[i]).record_id != (#[trigger] records[j]).record_id by {
        assert(document_key(schema, docs[i]) != document_key(schema, docs[j]));
    }
}

/// Whether a record has the named field.
pub open spec fn has_field(fields: Seq<(Seq<char>, JsonModel)>, name: Seq<char>) -> bool {
    exists|i: int| 0 <= i < fields.len() && (#[trigger] fields[i]).0 == name
}

proof fn lemma_has_field(fields: Seq<(Seq<char>, JsonModel)>, name: Seq<char>)
    ensures
        has_field(fields, name) <==> text_map::value_of(fields, name) is Some,
{
    if has_field(fields, name) {
        let i = choose|i: int| 0 <= i < fields.len() && (#[trigger] fields[i]).0 == name;
        assert(text_map::is_key_at(fields, name, i));
    }
    if text_map::value_of(fields, name) is Some {
        let i = choose|i: int| text_map::is_key_at(fields, name, i);
        assert(fields[i].0 == name);
    }
}

/// Whether the shown fields are those with the given names, one by one and with their values.
pub open spec fn shows_fields(
    names: Seq<Seq<char>>,
    fields: Seq<(Seq<char>, JsonModel)>,
    shown: Seq<(Seq<char>, JsonModel)>,
) -> bool {
    &&& shown.len() == names.len()
    &&& forall|i: int|
        0 <= i < shown.len() ==> (#[trigger] shown[i]).0 == names[i] && Some(shown[i].1)
            == text_map::value_of(fields, names[i])
}

/// A record that is accepted is a flat one and has every field that its schema names. Its id is the
/// text of its primary key, its filter values are those of the filter fields of the schema, in
/// their order and of their types, its payload is all that was read of it, it displays the display
/// fields of the schema, and its hash is that of its payload.
pub proof fn law_accepted_record(
    schema: SchemaModel,
    fields: Seq<(Seq<char>, JsonModel)>,
    seen: Set<Seq<char>>,
)
    requires
        prepared(schema, Some(fields), seen) is Ok,
    ensures
        ({
            let record = prepared(schema, Some(fields), seen)->Ok_0;
            &&& forall|i: int|
                0 <= i < fields.len() ==> !((#[trigger] fields[i]).1 is Array) && !(
                fields[i].1 is Object)
            &&& has_field(fields, schema.primary_key)
            &&& text_map::value_of(fields, schema.primary_key)->0.scalar_text() == Some(
                record.record_id,
            )
            &&& !seen.contains(record.record_id)
            &&& forall|i: int|
                0 <= i < schema.text_fields.len() ==> has_field(
                    fields,
                    #[trigger] schema.text_fields[i],
                )
            &&& forall|i: int|
                0 <= i < schema.full_text_fields.len() ==> has_field(
                    fields,
                    #[trigger] schema.full_text_fields[i],
                )
            &&& forall|i: int|
                0 <= i < schema.display_fields.len() ==> has_field(
                    fields,
                    #[trigger] schema.display_fields[i],
                )
            &&& schema.source_uri_field matches Some(name) ==> has_field(fields, name)
            &&& schema.source_label_field matches Some(name) ==> has_field(fields, name)
            &&& record.filters.len() == schema.filter_fields.len()
            &&& forall|i: int|
                0 <= i < record.filters.len() ==> {
                    let (name, value) = #[trigger] record.filters[i];
                    &&& name == schema.filter_fields[i].0
                    &&& text_map::value_of(fields, name) == Some(value)
                    &&& match schema.filter_fields[i].1.field_type {
                        FilterType::Keyword => !(value is Null) && !value.is_nested(),
                        FilterType::Number => value is Number,
                        FilterType::Boolean => value is Bool,
                        FilterType::Date => value is Text && !text::is_blank(
                            value.scalar_text()->0,
                        ),
                    }
                }
            &&& record.payload_json == json::json_object_text(fields)
            &&& exists|shown: Seq<(Seq<char>, JsonModel)>|
                record.display_json == #[trigger] json::json_object_text(shown) && shows_fields(
                    schema.display_fields,
                    fields,
                    shown,
                )
            &&& record.row_hash == text::hex(
                sha256(vstd::utf8::encode_utf8(record.payload_json)),
            )
            &&& !text::is_blank(record.searchable_text)
        }),
{
    let record = prepared(schema, Some(fields), seen)->Ok_0;
    let required = required_fields(schema);
    lemma_first_nested(fields);
    lemma_first_missing(schema.text_fields, fields);
    lemma_first_missing(required, fields);
    lemma_filter_error(schema.filter_fields, fields);
    lemma_has_field(fields, schema.primary_key);
    assert forall|i: int| 0 <= i < schema.text_fields.len() implies has_field(
        fields,
        #[trigger] schema.text_fields[i],
    ) by {
        lemma_has_field(fields, schema.text_fields[i]);
    }
    assert forall|i: int| 0 <= i < required.len() implies has_field(
        fields,
        #[trigger] required[i],
    ) by {
        lemma_has_field(fields, required[i]);
    }
    let full = schema.full_text_fields;
    let uri = optional_name(schema.source_uri_field);
    let label = optional_name(schema.source_label_field);
    assert forall|i: int| 0 <= i < full.len() implies has_field(fields, #[trigger] full[i]) by {
        assert(required[i] == full[i]);
    }
    if schema.source_uri_field is Some {
        assert(required[full.len() as int] == schema.source_uri_field->0);
    }
    if schema.source_label_field is Some {
        assert(required[(full.len() + uri.len()) as int] == schema.source_label_field->0);
    }
    assert forall|i: int| 0 <= i < schema.display_fields.len() implies has_field(
        fields,
        #[trigger] schema.display_fields[i],
    ) by {
        assert(required[full.len() + uri.len() + label.len() + i] == schema.display_fields[i]);
    }
    let shown = chosen_fields(schema.display_fields, fields);
    assert forall|i: int| 0 <= i < shown.len() implies (#[trigger] shown[i]).0
        == schema.display_fields[i] && Some(shown[i].1) == text_map::value_of(
        fields,
        schema.display_fields[i],
    ) by {
        lemma_has_field(fields, schema.display_fields[i]);
    }
    assert(shows_fields(schema.display_fields, fields, shown));
    assert forall|i: int| 0 <= i < record.filters.len() implies {
        let (name, value) = #[trigger] record.filters[i];
        &&& name == schema.filter_fields[i].0
        &&& text_map::value_of(fields, name) == Some(value)
        &&& match schema.filter_fields[i].1.field_type {
            FilterType::Keyword => !(value is Null) && !value.is_nested(),
            FilterType::Number => value is Number,
            FilterType::Boolean => value is Bool,
            FilterType::Date => value is Text && !text::is_blank(value.scalar_text()->0),
        }
    } by {
        assert(has_filter_value(schema.filter_fields[i], fields));
    }
}

/// The searchable text of a record grows with its text fields: one more field adds its text on a
/// line of its own, or as the first where there was none before, and nothing where it is blank.
pub proof fn law_searchable_text(
    names: Seq<Seq<char>>,
    name: Seq<char>,
    fields: Seq<(Seq<char>, JsonModel)>,
    t: Seq<char>,
)
    requires
        text_map::value_of(fields, name) matches Some(value) && value.scalar_text() == Some(t),
    ensures
        searchable(Seq::empty(), fields).len() == 0,
        text::is_blank(t) ==> searchable(names.push(name), fields) == searchable(names, fields),
        !text::is_blank(t) ==> searchable(names.push(name), fields) == (if text::is_blank(
            searchable(names, fields),
        ) {
            t
        } else {
            searchable(names, fields) + seq!['\n'] + t
        }),
{
    let more = names.push(name);
    let before = text_parts(names, fields);
    let parts = text_parts(more, fields);
    reveal_strlit("\n");
    assert("\n"@ =~= seq!['\n']);
    assert(more.drop_last() =~= names);
    lemma_text_parts(names, fields);
    if !text::is_blank(t) {
        assert(parts == before.push(t));
        assert(parts.drop_last() =~= before);
        if before.len() > 0 {
            text::lemma_joined_not_blank(before, "\n"@, 0);
        }
    }
}

proof fn lemma_text_parts(names: Seq<Seq<char>>, fields: Seq<(Seq<char>, JsonModel)>)
    ensures
        forall|i: int|
            0 <= i < text_parts(names, fields).len() ==> !text::is_blank(
                #[trigger] text_parts(names, fields)[i],
            ),
    decreases names.len(),
{
    if names.len() > 0 {
        lemma_text_parts(names.drop_last(), fields);
        let before = text_parts(names.drop_last(), fields);
        let parts = text_parts(names, fields);
        assert forall|i: int| 0 <= i < parts.len() implies !text::is_blank(#[trigger] parts[i]) by {
            if i < before.len() {
                assert(parts[i] == before[i]);
            }
        }
    }
}

proof fn lemma_first_missing_is_named(
    names: Seq<Seq<char>>,
    fields: Seq<(Seq<char>, JsonModel)>,
)
    requires
        first_missing(names, fields) is Some,
    ensures
        names.contains(first_missing(names, fields)->0),
        !has_field(fields, first_missing(names, fields)->0),
    decreases names.len(),
{
    lemma_has_field(fields, names[0]);
    if text_map::value_of(fields, names[0]) is Some {
        let rest = names.drop_first();
        lemma_first_missing_is_named(rest, fields);
        let i = choose|i: int| 0 <= i < rest.len() && rest[i] == first_missing(rest, fields)->0;
        assert(names[i + 1] == rest[i]);
    } else {
        assert(names[0] == first_missing(names, fields)->0);
    }
}

proof fn lemma_nested_is_there(fields: Seq<(Seq<char>, JsonModel)>) -> (i: int)
    requires
        first_nested(fields) is Some,
    ensures
        0 <= i < fields.len(),
        fields[i].0 == first_nested(fields)->0,
        fields[i].1 is Array || fields[i].1 is Object,
    decreases fields.len(),
{
    if fields[0].1.is_nested() {
        0
    } else {
        lemma_nested_is_there(fields.drop_first()) + 1
    }
}

proof fn lemma_filter_error_is_there(
    specs: Seq<(Seq<char>, FilterModel)>,
    fields: Seq<(Seq<char>, JsonModel)>,
) -> (i: int)
    requires
        filter_error(specs, fields) is Some,
    ensures
        0 <= i < specs.len(),
        match text_map::value_of(fields, specs[i].0) {
            None => filter_error(specs, fields) == Some(SchemaErrorModel::MissingField(specs[i].0)),
            Some(value) => filter_error(specs, fields) == Some(
                SchemaErrorModel::InvalidFilterValue(specs[i].0, specs[i].1.field_type),
            ) && match specs[i].1.field_type {
                FilterType::Keyword => value is Null || value.is_nested(),
                FilterType::Number => !(value is Number),
                FilterType::Boolean => !(value is Bool),
                FilterType::Date => !(value is Text) || text::is_blank(value.scalar_text()->0),
            },
        },
    decreases specs.len(),
{
    if has_filter_value(specs[0], fields) {
        lemma_filter_error_is_there(specs.drop_first(), fields) + 1
    } else {
        0
    }
}

/// A record is refused for a reason that it has: it is no flat object, a nested value in the field
/// that is named, a field that the schema names and that it lacks, an id that was seen before, no
/// text in any of its text fields, or a filter value that is not of its type.
pub proof fn law_refused_record(
    schema: SchemaModel,
    doc: Option<Seq<(Seq<char>, JsonModel)>>,
    seen: Set<Seq<char>>,
)
    requires
        prepared(schema, doc, seen) is Err,
    ensures
        match prepared(schema, doc, seen)->Err_0 {
            SchemaErrorModel::NotFlatObject => doc is None,
            SchemaErrorModel::NestedValue(name) => doc is Some && exists|i: int|
                0 <= i < doc->0.len() && (#[trigger] doc->0[i]).0 == name && (doc->0[i].1 is Array
                    || doc->0[i].1 is Object),
            SchemaErrorModel::MissingField(name) => doc is Some && !has_field(doc->0, name) && (name
                == schema.primary_key || schema.text_fields.contains(name)
                || schema.full_text_fields.contains(name) || schema.display_fields.contains(name)
                || schema.source_uri_field == Some(name) || schema.source_label_field == Some(name)
                || filter_names(schema.filter_fields).contains(name)),
            SchemaErrorModel::DuplicatePrimaryKey(id) => doc is Some && seen.contains(id)
                && record_key(schema, doc->0) == Some(id),
            SchemaErrorModel::EmptySearchableText(id) => doc is Some && record_key(schema, doc->0)
                == Some(id) && forall|i: int|
                0 <= i < schema.text_fields.len() ==> has_no_text(
                    doc->0,
                    #[trigger] schema.text_fields[i],
                ),
            SchemaErrorModel::InvalidFilterValue(name, expected) => doc is Some && exists|i: int|
                0 <= i < schema.filter_fields.len() && (#[trigger] schema.filter_fields[i]).0
                    == name && schema.filter_fields[i].1.field_type == expected && is_misfit(
                    text_map::value_of(doc->0, name),
                    expected,
                ),
            _ => false,
        },
{
    if let Some(fields) = doc {
        let required = required_fields(schema);
        lemma_has_field(fields, schema.primary_key);
        lemma_first_nested(fields);
        if first_nested(fields) is Some {
            let i = lemma_nested_is_there(fields);
            assert(fields[i].0 == first_nested(fields)->0);
        } else if record_key(schema, fields) is None {
            if has_field(fields, schema.primary_key) {
                let i = choose|i: int| text_map::is_key_at(fields, schema.primary_key, i);
                assert(text_map::is_key_at(fields, schema.primary_key, i));
                assert(!fields[i].1.is_nested());
            }
        } else if seen.contains(record_key(schema, fields)->0) {
        } else if first_missing(schema.text_fields, fields) is Some {
            lemma_first_missing_is_named(schema.text_fields, fields);
        } else if text::is_blank(searchable(schema.text_fields, fields)) {
            lemma_no_text(schema.text_fields, fields);
        } else if first_missing(required, fields) is Some {
            lemma_first_missing_is_named(required, fields);
            let name = first_missing(required, fields)->0;
            let i = choose|i: int| 0 <= i < required.len() && required[i] == name;
            let full = schema.full_text_fields;
            let uri = optional_name(schema.source_uri_field);
            let label = optional_name(schema.source_label_field);
            let n = full.len() + uri.len() + label.len();
            if i < full.len() {
                assert(full[i] == name);
            } else if i < full.len() + uri.len() {
                assert(uri[i - full.len()] == name);
            } else if i < n {
                assert(label[i - full.len() - uri.len()] == name);
            } else {
                assert(schema.display_fields[i - n] == name);
            }
        } else {
            let i = lemma_filter_error_is_there(schema.filter_fields, fields);
            lemma_has_field(fields, schema.filter_fields[i].0);
            assert(filter_names(schema.filter_fields)[i] == schema.filter_fields[i].0);
            assert(text_map::value_of(fields, schema.filter_fields[i].0) is Some ==> is_misfit(
                text_map::value_of(fields, schema.filter_fields[i].0),
                schema.filter_fields[i].1.field_type,
            ));
        }
    }
}

/// Whether a value is there and is not of a type: no number, no truth value, no text or only white
/// space for a date, and for a keyword nothing that has a text of its own.
pub open spec fn is_misfit(value: Option<JsonModel>, expected: FilterType) -> bool {
    match value {
        None => false,
        Some(v) => match expected {
            FilterType::Keyword => v is Null || v is Array || v is Object,
            FilterType::Number => !(v is Number),
            FilterType::Boolean => !(v is Bool),
            FilterType::Date => !(v is Text) || text::is_blank(v.scalar_text()->0),
        },
    }
}

/// Whether a field of a record has no text but white space.
pub open spec fn has_no_text(fields: Seq<(Seq<char>, JsonModel)>, name: Seq<char>) -> bool {
    match text_map::value_of(fields, name) {
        Some(value) => value.scalar_text() matches Some(t) ==> text::is_blank(t),
        None => true,
    }
}

proof fn lemma_no_text(names: Seq<Seq<char>>, fields: Seq<(Seq<char>, JsonModel)>)
    requires
        text::is_blank(searchable(names, fields)),
    ensures
        forall|i: int| 0 <= i < names.len() ==> has_no_text(fields, #[trigger] names[i]),
    decreases names.len(),
{
    let parts = text_parts(names, fields);
    lemma_text_parts(names, fields);
    if parts.len() > 0 {
        text::lemma_joined_not_blank(parts, "\n"@, 0);
    }
    if names.len() > 0 {
        let front = names.drop_last();
        let before = text_parts(front, fields);
        assert(before.len() == 0);
        assert(text::is_blank(searchable(front, fields)));
        lemma_no_text(front, fields);
        assert forall|i: int| 0 <= i < names.len() implies has_no_text(
            fields,
            #[trigger] names[i],
        ) by {
            if i < front.len() {
                assert(front[i] == names[i]);
            }
        }
    }
}

/// A schema is refused exactly where it has no dataset, no primary key or no text field, and is
/// told the first of these that it lacks.
pub proof fn law_schema_is_checked(schema: SchemaModel)
    ensures
        schema.validate() is Ok <==> !text::is_blank(schema.dataset_id) && !text::is_blank(
            schema.primary_key,
        ) && schema.text_fields.len() > 0,
        text::is_blank(schema.dataset_id) ==> schema.validate() == Err::<(), SchemaErrorModel>(
            SchemaErrorModel::MissingDatasetId,
        ),
        !text::is_blank(schema.dataset_id) && text::is_blank(schema.primary_key)
            ==> schema.validate() == Err::<(), SchemaErrorModel>(
            SchemaErrorModel::MissingPrimaryKey,
        ),
        !text::is_blank(schema.dataset_id) && !text::is_blank(schema.primary_key)
            && schema.text_fields.len() == 0 ==> schema.validate() == Err::<(), SchemaErrorModel>(
            SchemaErrorModel::MissingTextFields,
        ),
{
}

/// What a record is refused for comes in order: first a nested value, then a missing key, then one
/// that was seen before, then a missing text field, then that there is no text.
pub proof fn law_reasons_come_in_order(
    schema: SchemaModel,
    fields: Seq<(Seq<char>, JsonModel)>,
    seen: Set<Seq<char>>,
)
    ensures
        ({
            let outcome = prepared(schema, Some(fields), seen);
            let flat = forall|i: int| 0 <= i < fields.len() ==> !(#[trigger] fields[i]).1.is_nested();
            let key = text_map::value_of(fields, schema.primary_key);
            let known = key is Some && seen.contains(key->0.scalar_text()->0);
            let complete = forall|i: int|
                0 <= i < schema.text_fields.len() ==> has_field(
                    fields,
                    #[trigger] schema.text_fields[i],
                );
            &&& !flat ==> outcome is Err && outcome->Err_0 is NestedValue
            &&& flat && key is None ==> outcome == Err::<RecordModel, SchemaErrorModel>(
                SchemaErrorModel::MissingField(schema.primary_key),
            )
            &&& flat && known ==> outcome == Err::<RecordModel, SchemaErrorModel>(
                SchemaErrorModel::DuplicatePrimaryKey(key->0.scalar_text()->0),
            )
            &&& flat && key is Some && !known && !complete ==> outcome is Err
                && outcome->Err_0 is MissingField && schema.text_fields.contains(
                outcome->Err_0->MissingField_0,
            )
            &&& flat && key is Some && !known && complete && text::is_blank(
                searchable(schema.text_fields, fields),
            ) ==> outcome == Err::<RecordModel, SchemaErrorModel>(
                SchemaErrorModel::EmptySearchableText(key->0.scalar_text()->0),
            )
        }),
{
    let key = text_map::value_of(fields, schema.primary_key);
    lemma_first_nested(fields);
    lemma_first_missing(schema.text_fields, fields);
    if key is Some {
        let i = choose|i: int| text_map::is_key_at(fields, schema.primary_key, i);
        assert(text_map::is_key_at(fields, schema.primary_key, i));
        assert(fields[i].1 == key->0);
    }
    assert forall|i: int| 0 <= i < schema.text_fields.len() implies (has_field(
        fields,
        #[trigger] schema.text_fields[i],
    ) <==> text_map::value_of(fields, schema.text_fields[i]) is Some) by {
        lemma_has_field(fields, schema.text_fields[i]);
    }
    if first_missing(schema.text_fields, fields) is Some {
        lemma_first_missing_is_named(schema.text_fields, fields);
    }
}

/// A dataset is refused for the first of its records that cannot be made: those before it can, and
/// it is refused for the same reason by itself, given the ids of those before it.
pub proof fn law_first_refused_record(
    schema: SchemaModel,
    docs: Seq<Option<Seq<(Seq<char>, JsonModel)>>>,
    seen: Set<Seq<char>>,
) -> (i: int)
    requires
        prepared_all(schema, docs, seen) is Err,
    ensures
        0 <= i < docs.len(),
        prepared_all(schema, docs.take(i), seen) is Ok,
        ({
            let before = prepared_all(schema, docs.take(i), seen)->Ok_0;
            let known = Set::new(
                |id: Seq<char>|
                    seen.contains(id) || exists|k: int|
                        0 <= k < before.len() && (#[trigger] before[k]).record_id == id,
            );
            &&& before.len() == i
            &&& prepared(schema, docs[i], known) is Err
            &&& prepared(schema, docs[i], known)->Err_0 == prepared_all(schema, docs, seen)->Err_0
        }),
    decreases docs.len(),
{
    if prepared(schema, docs[0], seen) is Err {
        assert(docs.take(0).len() == 0);
        let before = prepared_all(schema, docs.take(0), seen)->Ok_0;
        let known = Set::new(
            |id: Seq<char>|
                seen.contains(id) || exists|k: int|
                    0 <= k < before.len() && (#[trigger] before[k]).record_id == id,
        );
        assert(known =~= seen);
        0
    } else {
        let record = prepared(schema, docs[0], seen)->Ok_0;
        let more = seen.insert(record.record_id);
        let rest = docs.drop_first();
        let i = law_first_refused_record(schema, rest, more);
        let front = docs.take(i + 1);
        assert(front.drop_first() =~= rest.take(i));
        assert(front[0] == docs[0]);
        let after = prepared_all(schema, rest.take(i), more)->Ok_0;
        let before = prepared_all(schema, front, seen)->Ok_0;
        assert(before == seq![record] + after);
        let inner = Set::new(
            |id: Seq<char>|
                more.contains(id) || exists|k: int|
                    0 <= k < after.len() && (#[trigger] after[k]).record_id == id,
        );
        let known = Set::new(
            |id: Seq<char>|
                seen.contains(id) || exists|k: int|
                    0 <= k < before.len() && (#[trigger] before[k]).record_id == id,
        );
        assert forall|id: Seq<char>| inner.contains(id) == known.contains(id) by {
            if exists|k: int| 0 <= k < after.len() && (#[trigger] after[k]).record_id == id {
                let k = choose|k: int| 0 <= k < after.len() && (#[trigger] after[k]).record_id == id;
                assert(before[k + 1] == after[k]);
            }
            if id == record.record_id {
                assert(before[0].record_id == id);
            }
            if exists|k: int| 0 <= k < before.len() && (#[trigger] before[k]).record_id == id {
                let k = choose|k: int|
                    0 <= k < before.len() && (#[trigger] before[k]).record_id == id;
                if k > 0 {
                    assert(after[k - 1] == before[k]);
                }
            }
        }
        assert(inner =~= known);
        assert(docs[i + 1] == rest[i]);
        i + 1
    }
}

/// The missing field that is named is the first one in the order of the names.
pub proof fn law_first_missing_field(
    names: Seq<Seq<char>>,
    fields: Seq<(Seq<char>, JsonModel)>,
) -> (i: int)
    requires
        first_missing(names, fields) is Some,
    ensures
        0 <= i < names.len(),
        first_missing(names, fields) == Some(names[i]),
        !has_field(fields, names[i]),
        forall|k: int| 0 <= k < i ==> has_field(fields, #[trigger] names[k]),
    decreases names.len(),
{
    lemma_has_field(fields, names[0]);
    if text_map::value_of(fields, names[0]) is None {
        0
    } else {
        let rest = names.drop_first();
        let i = law_first_missing_field(rest, fields);
        assert forall|k: int| 0 <= k < i + 1 implies has_field(fields, #[trigger] names[k]) by {
            if k > 0 {
                assert(names[k] == rest[k - 1]);
            }
        }
        i + 1
    }
}

/// The nested field that is named is the first one in the order of the fields.
pub proof fn law_first_nested_field(fields: Seq<(Seq<char>, JsonModel)>) -> (i: int)
    requires
        first_nested(fields) is Some,
    ensures
        0 <= i < fields.len(),
        first_nested(fields) == Some(fields[i].0),
        fields[i].1 is Array || fields[i].1 is Object,
        forall|k: int|
            0 <= k < i ==> !((#[trigger] fields[k]).1 is Array) && !(fields[k].1 is Object),
    decreases fields.len(),
{
    if fields[0].1.is_nested() {
        0
    } else {
        let rest = fields.drop_first();
        let i = law_first_nested_field(rest);
        assert forall|k: int| 0 <= k < i + 1 implies !((#[trigger] fields[k]).1 is Array) && !(
        fields[k].1 is Object) by {
            if k > 0 {
                assert(fields[k] == rest[k - 1]);
            }
        }
        i + 1
    }
}

/// The filter field that is named is the first one, in the order of the schema, that is missing or
/// whose value is not of its type.
pub proof fn law_first_wrong_filter_field(
    specs: Seq<(Seq<char>, FilterModel)>,
    fields: Seq<(Seq<char>, JsonModel)>,
) -> (i: int)
    requires
        filter_error(specs, fields) is Some,
    ensures
        0 <= i < specs.len(),
        filter_error(specs, fields) == Some(
            if has_field(fields, specs[i].0) {
                SchemaErrorModel::InvalidFilterValue(specs[i].0, specs[i].1.field_type)
            } else {
                SchemaErrorModel::MissingField(specs[i].0)
            },
        ),
        has_field(fields, specs[i].0) ==> is_misfit(
            text_map::value_of(fields, specs[i].0),
            specs[i].1.field_type,
        ),
        forall|k: int|
            0 <= k < i ==> has_field(fields, (#[trigger] specs[k]).0) && !is_misfit(
                text_map::value_of(fields, specs[k].0),
                specs[k].1.field_type,
            ),
    decreases specs.len(),
{
    lemma_has_field(fields, specs[0].0);
    if has_filter_value(specs[0], fields) {
        let rest = specs.drop_first();
        let i = law_first_wrong_filter_field(rest, fields);
        assert forall|k: int| 0 <= k < i + 1 implies has_field(fields, (#[trigger] specs[k]).0)
            && !is_misfit(text_map::value_of(fields, specs[k].0), specs[k].1.field_type) by {
            if k > 0 {
                assert(specs[k] == rest[k - 1]);
            }
        }
        i + 1
    } else {
        0
    }
}

} // verus!
