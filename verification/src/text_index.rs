//! The text index: what is put into it, and what it is asked.
use vstd::prelude::*;
use vstd::string::*;

use crate::json;
use crate::json::{JsonModel, JsonValue};
use crate::protocol;
use crate::protocol::{ExprModel, FilterExpr};
use crate::schema::{DatasetSchema, PreparedRecord};
use crate::sql;
use crate::text;
use crate::text::{is_blank_text, to_chars};
use crate::text_map;
use crate::text_map::TextMap;

verus! {

/// Whether a character stands for itself in the name of a field of the index.
pub open spec fn is_plain(c: char) -> bool {
    ('a' <= c && c <= 'z') || ('A' <= c && c <= 'Z') || ('0' <= c && c <= '9') || c == '_'
}

/// The name of a filter field in the index.
pub open spec fn index_name(field: Seq<char>) -> Seq<char> {
    "filter_"@ + Seq::new(
        field.len(),
        |i: int|
            if is_plain(field[i]) {
                field[i]
            } else {
                '_'
            },
    )
}

/// The name of a filter field in the index.
pub fn filter_field_name(field: &str) -> (r: String)
    ensures
        r@ == index_name(field@),
{
    let chars = to_chars(field);
    let ghost all = Seq::new(
        field@.len(),
        |i: int|
            if is_plain(field@[i]) {
                field@[i]
            } else {
                '_'
            },
    );
    let mut out = "filter_".to_string();
    let mut i: usize = 0;
    assert(out@ =~= "filter_"@ + all.take(0));
    while i < chars.len()
        invariant
            i <= chars@.len(),
            chars@ == field@,
            all == Seq::new(
                field@.len(),
                |i: int|
                    if is_plain(field@[i]) {
                        field@[i]
                    } else {
                        '_'
                    },
            ),
            out@ == "filter_"@ + all.take(i as int),
        decreases chars@.len() - i,
    {
        let c = chars[i];
        if ('a' <= c && c <= 'z') || ('A' <= c && c <= 'Z') || ('0' <= c && c <= '9') || c == '_' {
            out.push(c);
        } else {
            out.push('_');
        }
        assert(out@ =~= "filter_"@ + all.take(i + 1));
        i = i + 1;
    }
    assert(all.take(i as int) =~= all);
    out
}

/// A field name of plain characters keeps them, so two such fields have different names in the
/// index.
pub proof fn law_plain_names_differ(a: Seq<char>, b: Seq<char>)
    requires
        forall|i: int| 0 <= i < a.len() ==> is_plain(#[trigger] a[i]),
        forall|i: int| 0 <= i < b.len() ==> is_plain(#[trigger] b[i]),
        index_name(a) == index_name(b),
    ensures
        a == b,
{
    let n = "filter_"@.len();
    assert(index_name(a).len() == n + a.len());
    assert(index_name(b).len() == n + b.len());
    assert forall|i: int| 0 <= i < a.len() implies a[i] == b[i] by {
        assert(index_name(a)[n + i] == a[i]);
        assert(index_name(b)[n + i] == b[i]);
    }
    assert(a =~= b);
}

/// The filter fields that the index has, with their names there. `present` says of each filter
/// field of the schema whether the index has it.
pub fn known_fields(schema: &DatasetSchema, present: &Vec<bool>) -> (r: TextMap<String>)
    requires
        schema.wf(),
        present@.len() == schema.filter_fields@.len(),
    ensures
        r.wf(),
        forall|i: int|
            0 <= i < present@.len() && present@[i] ==> is_known(
                r@,
                (#[trigger] schema.filter_fields@[i]).0,
                index_name(schema.filter_fields@[i].0),
            ),
        forall|field: Seq<char>| #[trigger]
            text_map::value_of(r@, field) is Some ==> exists|i: int|
                0 <= i < present@.len() && present@[i] && (#[trigger] schema.filter_fields@[i]).0
                    == field,
{
    let ghost fields = schema.filter_fields@;
    let mut out: TextMap<String> = TextMap::new();
    let mut i: usize = 0;
    while i < present.len()
        invariant
            i <= present@.len(),
            present@.len() == fields.len(),
            fields == schema.filter_fields@,
            schema.wf(),
            out.wf(),
            forall|k: int|
                0 <= k < i && present@[k] ==> is_known(
                    out@,
                    (#[trigger] fields[k]).0,
                    index_name(fields[k].0),
                ),
            forall|field: Seq<char>| #[trigger]
                text_map::value_of(out@, field) is Some ==> exists|k: int|
                    0 <= k < i && present@[k] && (#[trigger] fields[k]).0 == field,
        decreases present@.len() - i,
    {
        let ghost before = out@;
        let name = schema.filter_fields.key_at(i);
        if present[i] {
            let inside = filter_field_name(name.as_str());
            out.insert(name.clone(), inside);
            proof {
                assert forall|k: int| 0 <= k < i + 1 && present@[k] implies is_known(
                    out@,
                    (#[trigger] fields[k]).0,
                    index_name(fields[k].0),
                ) by {
                    assert(text_map::value_of(out@, fields[k].0) == (if fields[k].0 == name@ {
                        Some(inside)
                    } else {
                        text_map::value_of(before, fields[k].0)
                    }));
                }
                assert forall|field: Seq<char>| #[trigger]
                    text_map::value_of(out@, field) is Some implies exists|k: int|
                    0 <= k < i + 1 && present@[k] && (#[trigger] fields[k]).0 == field by {
                    if field == name@ {
                        assert(fields[i as int].0 == field);
                    } else {
                        assert(text_map::value_of(before, field) is Some);
                    }
                }
            }
        }
        i = i + 1;
    }
    out
}

/// Whether a map gives a field the name `inside`.
pub open spec fn is_known(
    known: Seq<(Seq<char>, String)>,
    field: Seq<char>,
    inside: Seq<char>,
) -> bool {
    match text_map::value_of(known, field) {
        Some(s) => s@ == inside,
        None => false,
    }
}

/// A text in a field of the index.
#[derive(Debug, Clone, PartialEq, Eq)]
pub struct FieldText {
    pub field: String,
    pub text: String,
}

/// Texts in fields, without their representation.
pub open spec fn field_texts(v: Seq<FieldText>) -> Seq<(Seq<char>, Seq<char>)> {
    Seq::new(v.len(), |i: int| (v[i].field@, v[i].text@))
}

/// The name in the index of a field, where the index has it.
pub open spec fn known_name(
    known: Seq<(Seq<char>, String)>,
    field: Seq<char>,
) -> Option<Seq<char>> {
    match text_map::value_of(known, field) {
        Some(s) => Some(s@),
        None => None,
    }
}

/// The texts of filter values that the index holds, by the names of their fields there.
pub open spec fn filter_texts(
    known: Seq<(Seq<char>, String)>,
    filters: Seq<(Seq<char>, JsonModel)>,
) -> Seq<(Seq<char>, Seq<char>)>
    decreases filters.len(),
{
    if filters.len() == 0 {
        Seq::empty()
    } else {
        let before = filter_texts(known, filters.drop_last());
        let (field, value) = filters.last();
        match (known_name(known, field), value.scalar_text()) {
            (Some(name), Some(t)) => before.push((name, t)),
            _ => before,
        }
    }
}

/// The texts of the filter values of a record that the index holds, by the names of their
/// fields there.
pub fn document_filters(known: &TextMap<String>, record: &PreparedRecord) -> (r: Vec<FieldText>)
    requires
        known.wf(),
    ensures
        field_texts(r@) == filter_texts(known@, record@.filters),
{
    let filters = &record.filters;
    let ghost all = json::json_fields(filters@);
    let mut out: Vec<FieldText> = Vec::new();
    let mut i: usize = 0;
    assert(field_texts(out@) =~= filter_texts(known@, all.take(0)));
    while i < filters.len()
        invariant
            i <= filters@.len(),
            known.wf(),
            all == json::json_fields(filters@),
            field_texts(out@) == filter_texts(known@, all.take(i as int)),
        decreases filters@.len() - i,
    {
        let ghost before = field_texts(out@);
        proof {
            assert(all.take(i + 1).drop_last() =~= all.take(i as int));
            assert(all.take(i + 1).last() == all[i as int]);
        }
        if let Some(name) = known.get(filters.key_at(i).as_str()) {
            if let Some(t) = filters.value_at(i).scalar_to_string() {
                let item = FieldText { field: name.clone(), text: t };
                out.push(item);
                assert(field_texts(out@) =~= before.push((item.field@, item.text@)));
            }
        }
        i = i + 1;
    }
    assert(all.take(i as int) =~= all);
    out
}

/// Whether the index is searched at all.
pub fn can_search(query: &str, limit: usize) -> (r: bool)
    ensures
        r == (!text::is_blank(query@) && limit != 0),
{
    !is_blank_text(query) && limit != 0
}

/// The tokens that are not blank.
pub open spec fn real_tokens(tokens: Seq<Seq<char>>) -> Seq<Seq<char>>
    decreases tokens.len(),
{
    if tokens.len() == 0 {
        Seq::empty()
    } else if text::is_blank(tokens.last()) {
        real_tokens(tokens.drop_last())
    } else {
        real_tokens(tokens.drop_last()).push(tokens.last())
    }
}

/// The tokens that are not blank.
pub fn tokenized_terms(tokens: &Vec<String>) -> (r: Vec<String>)
    ensures
        text::texts(r@) == real_tokens(text::texts(tokens@)),
{
    let ghost all = text::texts(tokens@);
    let mut out: Vec<String> = Vec::new();
    let mut i: usize = 0;
    assert(text::texts(out@) =~= real_tokens(all.take(0)));
    while i < tokens.len()
        invariant
            i <= tokens@.len(),
            all == text::texts(tokens@),
            text::texts(out@) == real_tokens(all.take(i as int)),
        decreases tokens@.len() - i,
    {
        let ghost before = text::texts(out@);
        proof {
            assert(all.take(i + 1).drop_last() =~= all.take(i as int));
            assert(all.take(i + 1).last() == tokens@[i as int]@);
        }
        if !is_blank_text(tokens[i].as_str()) {
            out.push(tokens[i].clone());
            assert(text::texts(out@) =~= before.push(tokens@[i as int]@));
        }
        i = i + 1;
    }
    assert(all.take(i as int) =~= all);
    out
}

/// What the index is asked of the text of records.
#[derive(Debug, Clone, PartialEq, Eq)]
pub enum TextQuery {
    /// What the parser of the index makes of the query.
    Parsed(String),
    /// Any of the terms.
    AnyTerm(Vec<String>),
}

/// What the index is asked of the text of records, without its representation.
pub enum TextQueryModel {
    Parsed(Seq<char>),
    AnyTerm(Seq<Seq<char>>),
}

impl View for TextQuery {
    type V = TextQueryModel;

    open spec fn view(&self) -> TextQueryModel {
        match self {
            TextQuery::Parsed(s) => TextQueryModel::Parsed(s@),
            TextQuery::AnyTerm(v) => TextQueryModel::AnyTerm(text::texts(v@)),
        }
    }
}

/// What the index is asked for a query with the given tokens: for any of them, and for the
/// query as it stands where there are none.
pub fn tokenized_or_query(query: &str, tokens: &Vec<String>) -> (r: TextQuery)
    ensures
        r@ == (if real_tokens(text::texts(tokens@)).len() == 0 {
            TextQueryModel::Parsed(query@)
        } else {
            TextQueryModel::AnyTerm(real_tokens(text::texts(tokens@)))
        }),
{
    let terms = tokenized_terms(tokens);
    assert(text::texts(terms@).len() == terms@.len());
    if terms.len() == 0 {
        TextQuery::Parsed(query.to_string())
    } else {
        TextQuery::AnyTerm(terms)
    }
}

/// What the index is asked of a filter field of records: that it has one of the given texts.
#[derive(Debug, Clone, PartialEq, Eq)]
pub struct FilterClause {
    pub field: String,
    pub any_of: Vec<String>,
}

/// What the index is asked of filter fields, without its representation.
pub open spec fn clause_models(v: Seq<FilterClause>) -> Seq<(Seq<char>, Seq<Seq<char>>)> {
    Seq::new(v.len(), |i: int| (v[i].field@, text::texts(v[i].any_of@)))
}

/// The texts of the scalars among the values.
pub open spec fn scalar_texts(values: Seq<JsonModel>) -> Seq<Seq<char>>
    decreases values.len(),
{
    if values.len() == 0 {
        Seq::empty()
    } else {
        let before = scalar_texts(values.drop_last());
        match values.last().scalar_text() {
            Some(t) => before.push(t),
            None => before,
        }
    }
}

/// The texts one of which a filter wants, as far as the index can tell.
pub open spec fn wanted_texts(expr: ExprModel) -> Seq<Seq<char>> {
    match expr {
        ExprModel::Eq(value) => scalar_texts(seq![value]),
        ExprModel::In(values) => scalar_texts(values),
        ExprModel::Range(_, _) => Seq::empty(),
    }
}

/// What the index is asked of filter fields: nothing of fields that it does not have, nothing
/// of ranges, and nothing where no text is wanted.
pub open spec fn filter_clauses(
    known: Seq<(Seq<char>, String)>,
    filters: Seq<(Seq<char>, ExprModel)>,
) -> Seq<(Seq<char>, Seq<Seq<char>>)>
    decreases filters.len(),
{
    if filters.len() == 0 {
        Seq::empty()
    } else {
        let before = filter_clauses(known, filters.drop_last());
        let (field, expr) = filters.last();
        match known_name(known, field) {
            Some(name) => if wanted_texts(expr).len() == 0 {
                before
            } else {
                before.push((name, wanted_texts(expr)))
            },
            None => before,
        }
    }
}

fn collect_scalars(values: &Vec<JsonValue>) -> (r: Vec<String>)
    ensures
        text::texts(r@) == scalar_texts(protocol::value_models(values@)),
{
    let ghost all = protocol::value_models(values@);
    let mut out: Vec<String> = Vec::new();
    let mut i: usize = 0;
    assert(text::texts(out@) =~= scalar_texts(all.take(0)));
    while i < values.len()
        invariant
            i <= values@.len(),
            all == protocol::value_models(values@),
            text::texts(out@) == scalar_texts(all.take(i as int)),
        decreases values@.len() - i,
    {
        let ghost before = text::texts(out@);
        proof {
            assert(all.take(i + 1).drop_last() =~= all.take(i as int));
            assert(all.take(i + 1).last() == values@[i as int]@);
        }
        if let Some(t) = values[i].scalar_to_string() {
            out.push(t);
            assert(text::texts(out@) =~= before.push(t@));
        }
        i = i + 1;
    }
    assert(all.take(i as int) =~= all);
    out
}

fn wanted(expr: &FilterExpr) -> (r: Vec<String>)
    ensures
        text::texts(r@) == wanted_texts(expr@),
{
    match expr {
        FilterExpr::Eq { eq } => {
            let mut out: Vec<String> = Vec::new();
            proof {
                reveal_with_fuel(scalar_texts, 2);
                assert(seq![eq@].drop_last() =~= Seq::empty());
            }
            if let Some(t) = eq.scalar_to_string() {
                out.push(t);
            }
            assert(text::texts(out@) =~= scalar_texts(seq![eq@]));
            out
        },
        FilterExpr::In { any_of } => collect_scalars(any_of),
        FilterExpr::Range { .. } => {
            let out: Vec<String> = Vec::new();
            assert(text::texts(out@) =~= Seq::empty());
            out
        },
    }
}

/// What the index is asked of filter fields: nothing of fields that it does not have, nothing
/// of ranges, and nothing where no text is wanted.
pub fn filter_queries(known: &TextMap<String>, filters: &TextMap<FilterExpr>) -> (r: Vec<
    FilterClause,
>)
    requires
        known.wf(),
    ensures
        clause_models(r@) == filter_clauses(known@, protocol::filter_exprs(filters@)),
{
    let ghost all = protocol::filter_exprs(filters@);
    let mut out: Vec<FilterClause> = Vec::new();
    let mut i: usize = 0;
    assert(clause_models(out@) =~= filter_clauses(known@, all.take(0)));
    while i < filters.len()
        invariant
            i <= filters@.len(),
            known.wf(),
            all == protocol::filter_exprs(filters@),
            clause_models(out@) == filter_clauses(known@, all.take(i as int)),
        decreases filters@.len() - i,
    {
        let ghost before = clause_models(out@);
        proof {
            assert(all.take(i + 1).drop_last() =~= all.take(i as int));
            assert(all.take(i + 1).last() == all[i as int]);
        }
        if let Some(name) = known.get(filters.key_at(i).as_str()) {
            let any_of = wanted(filters.value_at(i));
            assert(text::texts(any_of@).len() == any_of@.len());
            if any_of.len() > 0 {
                let clause = FilterClause { field: name.clone(), any_of };
                out.push(clause);
                assert(clause_models(out@) =~= before.push(
                    (clause.field@, text::texts(clause.any_of@)),
                ));
            }
        }
        i = i + 1;
    }
    assert(all.take(i as int) =~= all);
    out
}

/// What the index is asked: of the text of records, and beside that of their filter fields.
#[derive(Debug, Clone, PartialEq, Eq)]
pub struct TextSearch {
    pub text: TextQuery,
    pub must: Vec<FilterClause>,
}

/// What the index is asked for a query with the given tokens, and for filters.
pub fn filtered_query(
    query: &str,
    tokens: &Vec<String>,
    known: &TextMap<String>,
    filters: &TextMap<FilterExpr>,
) -> (r: TextSearch)
    requires
        known.wf(),
    ensures
        r.text@ == (if real_tokens(text::texts(tokens@)).len() == 0 {
            TextQueryModel::Parsed(query@)
        } else {
            TextQueryModel::AnyTerm(real_tokens(text::texts(tokens@)))
        }),
        clause_models(r.must@) == filter_clauses(known@, protocol::filter_exprs(filters@)),
{
    TextSearch {
        text: tokenized_or_query(query, tokens),
        must: filter_queries(known, filters),
    }
}

/// Whether a value is what a filter other than a range wants: one of the wanted values by its
/// text, and any value where a list of wanted values is empty.
pub open spec fn is_wanted(expr: ExprModel, value: JsonModel) -> bool {
    match expr {
        ExprModel::Eq(v) => value.scalar_text() == Some(sql::text_or_empty(v)),
        ExprModel::In(values) => values.len() == 0 || exists|i: int|
            0 <= i < values.len() && value.scalar_text() == Some(
                sql::text_or_empty(#[trigger] values[i]),
            ),
        ExprModel::Range(_, _) => true,
    }
}

/// Whether the fields of a record have values that a filter other than a range wants.
pub open spec fn meets(
    filters: Seq<(Seq<char>, JsonModel)>,
    filter: (Seq<char>, ExprModel),
) -> bool {
    match text_map::value_of(filters, filter.0) {
        Some(value) => is_wanted(filter.1, value),
        None => false,
    }
}

/// Whether a filter asks for nothing but scalars.
pub open spec fn is_scalar_filter(expr: ExprModel) -> bool {
    match expr {
        ExprModel::Eq(v) => !v.is_nested(),
        ExprModel::In(values) => forall|i: int|
            0 <= i < values.len() ==> !(#[trigger] values[i]).is_nested(),
        ExprModel::Range(_, _) => true,
    }
}

/// Whether a document of the index has one of the texts that a clause asks for.
pub open spec fn accepts(
    texts: Seq<(Seq<char>, Seq<char>)>,
    clause: (Seq<char>, Seq<Seq<char>>),
) -> bool {
    exists|i: int|
        0 <= i < texts.len() && (#[trigger] texts[i]).0 == clause.0 && clause.1.contains(
            texts[i].1,
        )
}

proof fn lemma_filter_text_is_held(
    known: Seq<(Seq<char>, String)>,
    filters: Seq<(Seq<char>, JsonModel)>,
    i: int,
)
    requires
        0 <= i < filters.len(),
        known_name(known, filters[i].0) is Some,
        filters[i].1.scalar_text() is Some,
    ensures
        filter_texts(known, filters).contains(
            (known_name(known, filters[i].0)->0, filters[i].1.scalar_text()->0),
        ),
    decreases filters.len(),
{
    let item = (known_name(known, filters[i].0)->0, filters[i].1.scalar_text()->0);
    let all = filter_texts(known, filters);
    let shorter = filters.drop_last();
    if i < shorter.len() {
        assert(shorter[i] == filters[i]);
        lemma_filter_text_is_held(known, shorter, i);
        let before = filter_texts(known, shorter);
        let k = choose|k: int| 0 <= k < before.len() && before[k] == item;
        assert(all[k] == item);
    } else {
        assert(all.last() == item);
    }
}

proof fn lemma_scalar_texts(values: Seq<JsonModel>, i: int)
    requires
        0 <= i < values.len(),
        !values[i].is_nested(),
    ensures
        scalar_texts(values).contains(sql::text_or_empty(values[i])),
    decreases values.len(),
{
    let t = sql::text_or_empty(values[i]);
    let all = scalar_texts(values);
    let shorter = values.drop_last();
    if i < shorter.len() {
        assert(shorter[i] == values[i]);
        lemma_scalar_texts(shorter, i);
        let before = scalar_texts(shorter);
        let k = choose|k: int| 0 <= k < before.len() && before[k] == t;
        assert(all[k] == t);
    } else {
        assert(all.last() == t);
    }
}

/// What the index is asked of filter fields leaves out no record that meets the filters, where
/// these ask for nothing but scalars.
pub proof fn law_index_keeps_matching_records(
    known: Seq<(Seq<char>, String)>,
    record: Seq<(Seq<char>, JsonModel)>,
    filters: Seq<(Seq<char>, ExprModel)>,
)
    requires
        forall|i: int|
            0 <= i < filters.len() ==> is_scalar_filter((#[trigger] filters[i]).1) && meets(
                record,
                filters[i],
            ),
    ensures
        forall|k: int|
            0 <= k < filter_clauses(known, filters).len() ==> accepts(
                filter_texts(known, record),
                #[trigger] filter_clauses(known, filters)[k],
            ),
    decreases filters.len(),
{
    if filters.len() > 0 {
        let shorter = filters.drop_last();
        assert forall|i: int| 0 <= i < shorter.len() implies is_scalar_filter(
            (#[trigger] shorter[i]).1,
        ) && meets(record, shorter[i]) by {
            assert(shorter[i] == filters[i]);
        }
        law_index_keeps_matching_records(known, record, shorter);
        let before = filter_clauses(known, shorter);
        let all = filter_clauses(known, filters);
        let texts = filter_texts(known, record);
        let last = filters.last();
        assert(last == filters[filters.len() - 1]);
        assert forall|k: int| 0 <= k < all.len() implies accepts(texts, #[trigger] all[k]) by {
            if k < before.len() {
                assert(all[k] == before[k]);
            } else {
                let name = known_name(known, last.0)->0;
                let value = text_map::value_of(record, last.0)->0;
                let at = choose|at: int| text_map::is_key_at(record, last.0, at);
                assert(record[at].1 == value);
                match last.1 {
                    ExprModel::Eq(v) => {
                        lemma_scalar_texts(seq![v], 0);
                    },
                    ExprModel::In(values) => {
                        if values.len() > 0 {
                            let i = choose|i: int|
                                0 <= i < values.len() && value.scalar_text() == Some(
                                    sql::text_or_empty(#[trigger] values[i]),
                                );
                            lemma_scalar_texts(values, i);
                        }
                    },
                    ExprModel::Range(_, _) => {},
                }
                let t = value.scalar_text()->0;
                lemma_filter_text_is_held(known, record, at);
                let j = choose|j: int| 0 <= j < texts.len() && texts[j] == (name, t);
                assert(texts[j].0 == all[k].0);
                assert(all[k].1.contains(texts[j].1));
            }
        }
    }
}

/// The name of a field in the index begins with `filter_` and has one more character for each
/// character of the field: the same one where that is a letter or a digit of ASCII, and else an
/// underscore.
pub proof fn law_index_name(field: Seq<char>)
    ensures
        index_name(field).len() == field.len() + 7,
        index_name(field).take(7) == "filter_"@,
        forall|i: int|
            0 <= i < field.len() ==> {
                let c = #[trigger] field[i];
                let named = index_name(field)[i + 7];
                if ('0' <= c && c <= '9') || ('A' <= c && c <= 'Z') || ('a' <= c && c <= 'z') {
                    named == c
                } else {
                    named == '_'
                }
            },
{
    reveal_strlit("filter_");
    assert(index_name(field).take(7) =~= "filter_"@);
}

/// The tokens that the index is asked for are those that are not blank, in their order: all of
/// them where none is blank.
pub proof fn law_real_tokens(tokens: Seq<Seq<char>>)
    ensures
        forall|t: Seq<char>| #[trigger]
            real_tokens(tokens).contains(t) <==> tokens.contains(t) && !text::is_blank(t),
        (forall|i: int| 0 <= i < tokens.len() ==> !text::is_blank(#[trigger] tokens[i]))
            ==> real_tokens(tokens) == tokens,
    decreases tokens.len(),
{
    if tokens.len() > 0 {
        let shorter = tokens.drop_last();
        let last = tokens.len() - 1;
        law_real_tokens(shorter);
        let before = real_tokens(shorter);
        let all = real_tokens(tokens);
        assert forall|t: Seq<char>| #[trigger] all.contains(t) <==> tokens.contains(t)
            && !text::is_blank(t) by {
            if all.contains(t) {
                let i = choose|i: int| 0 <= i < all.len() && all[i] == t;
                if i < before.len() {
                    assert(before[i] == t);
                    assert(before.contains(t));
                    let k = choose|k: int| 0 <= k < shorter.len() && shorter[k] == t;
                    assert(tokens[k] == t);
                } else {
                    assert(tokens[last] == t);
                }
            }
            if tokens.contains(t) && !text::is_blank(t) {
                let k = choose|k: int| 0 <= k < tokens.len() && tokens[k] == t;
                if k < last {
                    assert(shorter[k] == t);
                    assert(before.contains(t));
                    let i = choose|i: int| 0 <= i < before.len() && before[i] == t;
                    assert(all[i] == t);
                } else {
                    assert(all.last() == t);
                }
            }
        }
        if forall|i: int| 0 <= i < tokens.len() ==> !text::is_blank(#[trigger] tokens[i]) {
            assert forall|i: int| 0 <= i < shorter.len() implies !text::is_blank(
                #[trigger] shorter[i],
            ) by {
                assert(shorter[i] == tokens[i]);
            }
            assert(!text::is_blank(tokens[last]));
            assert(all =~= tokens);
        }
    } else {
        assert(real_tokens(tokens) =~= tokens);
    }
}

/// Whether one of the values has the given text.
pub open spec fn is_text_of_one(values: Seq<JsonModel>, t: Seq<char>) -> bool {
    exists|i: int| 0 <= i < values.len() && (#[trigger] values[i]).scalar_text() == Some(t)
}

proof fn lemma_scalar_texts_are_of_values(values: Seq<JsonModel>)
    ensures
        forall|t: Seq<char>| #[trigger]
            scalar_texts(values).contains(t) <==> is_text_of_one(values, t),
    decreases values.len(),
{
    if values.len() > 0 {
        let shorter = values.drop_last();
        let last = values.len() - 1;
        lemma_scalar_texts_are_of_values(shorter);
        let before = scalar_texts(shorter);
        let all = scalar_texts(values);
        assert forall|t: Seq<char>| #[trigger] all.contains(t) <==> is_text_of_one(values, t) by {
            if all.contains(t) {
                let i = choose|i: int| 0 <= i < all.len() && all[i] == t;
                if i < before.len() {
                    assert(before[i] == t);
                    assert(before.contains(t));
                    let k = choose|k: int|
                        0 <= k < shorter.len() && (#[trigger] shorter[k]).scalar_text() == Some(t);
                    assert(values[k].scalar_text() == Some(t));
                } else {
                    assert(values[last].scalar_text() == Some(t));
                }
            }
            if is_text_of_one(values, t) {
                let k = choose|k: int|
                    0 <= k < values.len() && (#[trigger] values[k]).scalar_text() == Some(t);
                if k < last {
                    assert(shorter[k].scalar_text() == Some(t));
                    assert(before.contains(t));
                    let i = choose|i: int| 0 <= i < before.len() && before[i] == t;
                    assert(all[i] == t);
                } else {
                    assert(all.last() == t);
                }
            }
        }
    }
}

/// Every filter on a field that the index has, and that names at least one scalar, is asked for:
/// the index wants that field to have the text of one of the values that the filter names, and of
/// no other.
pub proof fn law_every_filter_is_asked_for(
    known: Seq<(Seq<char>, String)>,
    filters: Seq<(Seq<char>, ExprModel)>,
    i: int,
    values: Seq<JsonModel>,
    v: int,
) -> (k: int)
    requires
        0 <= i < filters.len(),
        known_name(known, filters[i].0) is Some,
        filters[i].1 == ExprModel::In(values) || filters[i].1 == ExprModel::Eq(values[0])
            && values.len() == 1,
        0 <= v < values.len(),
        values[v].scalar_text() is Some,
    ensures
        0 <= k < filter_clauses(known, filters).len(),
        filter_clauses(known, filters)[k].0 == known_name(known, filters[i].0)->0,
        forall|t: Seq<char>| #[trigger]
            filter_clauses(known, filters)[k].1.contains(t) <==> is_text_of_one(values, t),
    decreases filters.len(),
{
    let shorter = filters.drop_last();
    let before = filter_clauses(known, shorter);
    let all = filter_clauses(known, filters);
    if i < filters.len() - 1 {
        assert(shorter[i] == filters[i]);
        let k = law_every_filter_is_asked_for(known, shorter, i, values, v);
        assert(all[k] == before[k]);
        k
    } else {
        lemma_scalar_texts_are_of_values(values);
        if filters[i].1 is Eq {
            assert(seq![values[0]] =~= values);
        }
        let t = values[v].scalar_text()->0;
        assert(is_text_of_one(values, t));
        assert(wanted_texts(filters[i].1).contains(t));
        all.len() - 1
    }
}

/// Nothing is asked for but what a filter says: every condition is on a field of some filter that
/// names values, not bounds, and it is met by the texts of these values alone.
pub proof fn law_only_filters_are_asked_for(
    known: Seq<(Seq<char>, String)>,
    filters: Seq<(Seq<char>, ExprModel)>,
    k: int,
) -> (i: int)
    requires
        0 <= k < filter_clauses(known, filters).len(),
    ensures
        0 <= i < filters.len(),
        known_name(known, filters[i].0) == Some(filter_clauses(known, filters)[k].0),
        !(filters[i].1 is Range),
        forall|t: Seq<char>| #[trigger]
            filter_clauses(known, filters)[k].1.contains(t) <==> (match filters[i].1 {
                ExprModel::Eq(value) => value.scalar_text() == Some(t),
                ExprModel::In(values) => is_text_of_one(values, t),
                ExprModel::Range(_, _) => false,
            }),
    decreases filters.len(),
{
    let shorter = filters.drop_last();
    let before = filter_clauses(known, shorter);
    let all = filter_clauses(known, filters);
    if k < before.len() {
        assert(all[k] == before[k]);
        let i = law_only_filters_are_asked_for(known, shorter, k);
        assert(shorter[i] == filters[i]);
        i
    } else {
        let i = filters.len() - 1;
        match filters[i].1 {
            ExprModel::Eq(value) => {
                lemma_scalar_texts_are_of_values(seq![value]);
                assert forall|t: Seq<char>| #[trigger] all[k].1.contains(t) <==> value.scalar_text()
                    == Some(t) by {
                    if value.scalar_text() == Some(t) {
                        assert(seq![value][0].scalar_text() == Some(t));
                    }
                }
            },
            ExprModel::In(values) => {
                lemma_scalar_texts_are_of_values(values);
            },
            ExprModel::Range(_, _) => {},
        }
        i
    }
}

/// A document holds the texts of a record's filter values whose fields the index has, under their
/// names there, and no others.
pub proof fn law_document_texts(
    known: Seq<(Seq<char>, String)>,
    filters: Seq<(Seq<char>, JsonModel)>,
    name: Seq<char>,
    t: Seq<char>,
)
    ensures
        filter_texts(known, filters).contains((name, t)) <==> exists|i: int|
            0 <= i < filters.len() && known_name(known, (#[trigger] filters[i]).0) == Some(name)
                && filters[i].1.scalar_text() == Some(t),
    decreases filters.len(),
{
    let all = filter_texts(known, filters);
    if exists|i: int|
        0 <= i < filters.len() && known_name(known, (#[trigger] filters[i]).0) == Some(name)
            && filters[i].1.scalar_text() == Some(t) {
        let i = choose|i: int|
            0 <= i < filters.len() && known_name(known, (#[trigger] filters[i]).0) == Some(name)
                && filters[i].1.scalar_text() == Some(t);
        lemma_filter_text_is_held(known, filters, i);
    }
    if filters.len() > 0 && all.contains((name, t)) {
        let shorter = filters.drop_last();
        let before = filter_texts(known, shorter);
        law_document_texts(known, shorter, name, t);
        let k = choose|k: int| 0 <= k < all.len() && all[k] == (name, t);
        if k < before.len() {
            assert(before[k] == (name, t));
            assert(before.contains((name, t)));
            let i = choose|i: int|
                0 <= i < shorter.len() && known_name(known, (#[trigger] shorter[i]).0) == Some(name)
                    && shorter[i].1.scalar_text() == Some(t);
            assert(filters[i] == shorter[i]);
        } else {
            assert(known_name(known, filters[filters.len() - 1].0) == Some(name));
        }
    }
}

} // verus!
