//! The statements with which the record database is asked.
use vstd::prelude::*;
use vstd::string::*;

use crate::json::{JsonModel, JsonValue};
use crate::protocol;
use crate::protocol::{ExprModel, FilterExpr, SearchModel, SearchRequest};
use crate::text;
use crate::text::{concat_text, same_text, split_words};
use crate::text_map::TextMap;

verus! {

/// A value that is bound to a mark of a statement. A real number is held by its text.
#[derive(Debug, Clone, PartialEq, Eq)]
pub enum SqlArg {
    Null,
    Text(String),
    Integer(i64),
    Real(String),
}

/// A bound value without its representation.
pub enum ArgModel {
    Null,
    Text(Seq<char>),
    Integer(i64),
    Real(Seq<char>),
}

impl View for SqlArg {
    type V = ArgModel;

    open spec fn view(&self) -> ArgModel {
        match self {
            SqlArg::Null => ArgModel::Null,
            SqlArg::Text(s) => ArgModel::Text(s@),
            SqlArg::Integer(n) => ArgModel::Integer(*n),
            SqlArg::Real(s) => ArgModel::Real(s@),
        }
    }
}

/// The views of a list of bound values.
pub open spec fn arg_models(v: Seq<SqlArg>) -> Seq<ArgModel> {
    Seq::new(v.len(), |i: int| v[i]@)
}

/// A statement and the values that are bound to its marks, in their order.
#[derive(Debug, Clone, PartialEq, Eq)]
pub struct SqlQuery {
    pub sql: String,
    pub args: Vec<SqlArg>,
}

/// A statement and its values without their representation.
pub struct QueryModel {
    pub sql: Seq<char>,
    pub args: Seq<ArgModel>,
}

impl View for SqlQuery {
    type V = QueryModel;

    open spec fn view(&self) -> QueryModel {
        QueryModel { sql: self.sql@, args: arg_models(self.args@) }
    }
}

/// The views of a list of statements.
pub open spec fn query_models(v: Seq<SqlQuery>) -> Seq<QueryModel> {
    Seq::new(v.len(), |i: int| v[i]@)
}

/// The text of a scalar; empty for an array or an object.
pub open spec fn text_or_empty(value: JsonModel) -> Seq<char> {
    match value.scalar_text() {
        Some(t) => t,
        None => Seq::empty(),
    }
}

/// The text of a scalar; empty for an array or an object.
pub fn value_text(value: &JsonValue) -> (r: String)
    ensures
        r@ == text_or_empty(value@),
{
    match value.scalar_to_string() {
        Some(s) => s,
        None => String::new(),
    }
}

/// Marks for `n` values, with commas between them.
pub open spec fn mark_list(n: nat) -> Seq<char>
    decreases n,
{
    if n == 0 {
        Seq::empty()
    } else if n == 1 {
        seq!['?']
    } else {
        mark_list((n - 1) as nat) + seq![',', '?']
    }
}

/// What a bound of a range adds to a statement.
pub open spec fn bound_sql(
    bound: Option<JsonModel>,
    by_number: Seq<char>,
    by_text: Seq<char>,
) -> Seq<char> {
    match bound {
        Some(JsonModel::Number(_)) => by_number,
        Some(_) => by_text,
        None => Seq::empty(),
    }
}

/// What is bound to the mark of a bound of a range.
pub open spec fn bound_args(bound: Option<JsonModel>) -> Seq<ArgModel> {
    match bound {
        Some(JsonModel::Number(t)) => seq![ArgModel::Real(t)],
        Some(value) => seq![ArgModel::Text(text_or_empty(value))],
        None => Seq::empty(),
    }
}

/// The condition on the records of a statement that a filter stands for.
pub open spec fn clause_sql(expr: ExprModel) -> Seq<char> {
    match expr {
        ExprModel::Eq(_) =>
            " AND EXISTS (SELECT 1 FROM filter_values fv WHERE fv.record_id = r.record_id AND fv.field_name = ? AND fv.string_value = ?)"@,
        ExprModel::In(values) => if values.len() == 0 {
            Seq::empty()
        } else {
            " AND EXISTS (SELECT 1 FROM filter_values fv WHERE fv.record_id = r.record_id AND fv.field_name = ? AND fv.string_value IN ("@
                + mark_list(values.len()) + "))"@
        },
        ExprModel::Range(gte, lte) =>
            " AND EXISTS (SELECT 1 FROM filter_values fv WHERE fv.record_id = r.record_id AND fv.field_name = ?"@
                + bound_sql(gte, " AND fv.number_value >= ?"@, " AND fv.string_value >= ?"@)
                + bound_sql(lte, " AND fv.number_value <= ?"@, " AND fv.string_value <= ?"@)
                + ")"@,
    }
}

/// The values that are bound to the marks of that condition.
pub open spec fn clause_args(name: Seq<char>, expr: ExprModel) -> Seq<ArgModel> {
    match expr {
        ExprModel::Eq(value) => seq![ArgModel::Text(name), ArgModel::Text(text_or_empty(value))],
        ExprModel::In(values) => if values.len() == 0 {
            Seq::empty()
        } else {
            seq![ArgModel::Text(name)] + Seq::new(
                values.len(),
                |i: int| ArgModel::Text(text_or_empty(values[i])),
            )
        },
        ExprModel::Range(gte, lte) => seq![ArgModel::Text(name)] + bound_args(gte) + bound_args(
            lte,
        ),
    }
}

/// The conditions that filters stand for.
pub open spec fn filter_sql(filters: Seq<(Seq<char>, ExprModel)>) -> Seq<char>
    decreases filters.len(),
{
    if filters.len() == 0 {
        Seq::empty()
    } else {
        filter_sql(filters.drop_last()) + clause_sql(filters.last().1)
    }
}

/// The values that are bound to the marks of those conditions.
pub open spec fn filter_args(filters: Seq<(Seq<char>, ExprModel)>) -> Seq<ArgModel>
    decreases filters.len(),
{
    if filters.len() == 0 {
        Seq::empty()
    } else {
        filter_args(filters.drop_last()) + clause_args(filters.last().0, filters.last().1)
    }
}

fn push_arg(args: &mut Vec<SqlArg>, arg: SqlArg)
    ensures
        arg_models(final(args)@) == arg_models(old(args)@).push(arg@),
{
    args.push(arg);
    assert(arg_models(args@) =~= arg_models(old(args)@).push(arg@));
}

fn append_bound(
    sql: &mut String,
    args: &mut Vec<SqlArg>,
    bound: &Option<JsonValue>,
    by_number: &str,
    by_text: &str,
)
    ensures
        final(sql)@ == old(sql)@ + bound_sql(
            protocol::optional_value(*bound),
            by_number@,
            by_text@,
        ),
        arg_models(final(args)@) == arg_models(old(args)@) + bound_args(
            protocol::optional_value(*bound),
        ),
{
    match bound {
        Some(JsonValue::Number(t)) => {
            sql.append(by_number);
            push_arg(args, SqlArg::Real(t.clone()));
        },
        Some(value) => {
            sql.append(by_text);
            push_arg(args, SqlArg::Text(value_text(value)));
        },
        None => {},
    }
    assert(sql@ =~= old(sql)@ + bound_sql(protocol::optional_value(*bound), by_number@, by_text@));
    assert(arg_models(args@) =~= arg_models(old(args)@) + bound_args(
        protocol::optional_value(*bound),
    ));
}

fn append_marks(sql: &mut String, args: &mut Vec<SqlArg>, values: &Vec<JsonValue>)
    ensures
        final(sql)@ == old(sql)@ + mark_list(values@.len()),
        arg_models(final(args)@) == arg_models(old(args)@) + Seq::new(
            values@.len(),
            |i: int| ArgModel::Text(text_or_empty(protocol::value_models(values@)[i])),
        ),
{
    let ghost all = Seq::new(
        values@.len(),
        |i: int| ArgModel::Text(text_or_empty(protocol::value_models(values@)[i])),
    );
    let mut i: usize = 0;
    assert(sql@ =~= old(sql)@ + mark_list(0));
    assert(arg_models(args@) =~= arg_models(old(args)@) + all.take(0));
    while i < values.len()
        invariant
            i <= values@.len(),
            all == Seq::new(
                values@.len(),
                |i: int| ArgModel::Text(text_or_empty(protocol::value_models(values@)[i])),
            ),
            sql@ == old(sql)@ + mark_list(i as nat),
            arg_models(args@) == arg_models(old(args)@) + all.take(i as int),
        decreases values@.len() - i,
    {
        if i > 0 {
            sql.push(',');
        }
        sql.push('?');
        push_arg(args, SqlArg::Text(value_text(&values[i])));
        proof {
            assert(sql@ =~= old(sql)@ + mark_list((i + 1) as nat));
            assert(arg_models(args@) =~= arg_models(old(args)@) + all.take(i + 1));
        }
        i = i + 1;
    }
    assert(all.take(i as int) =~= all);
}

fn append_clause(sql: &mut String, args: &mut Vec<SqlArg>, name: &String, expr: &FilterExpr)
    ensures
        final(sql)@ == old(sql)@ + clause_sql(expr@),
        arg_models(final(args)@) == arg_models(old(args)@) + clause_args(name@, expr@),
{
    let ghost sql0 = sql@;
    let ghost args0 = arg_models(args@);
    match expr {
        FilterExpr::Eq { eq } => {
            sql.append(
                " AND EXISTS (SELECT 1 FROM filter_values fv WHERE fv.record_id = r.record_id AND fv.field_name = ? AND fv.string_value = ?)",
            );
            push_arg(args, SqlArg::Text(name.clone()));
            push_arg(args, SqlArg::Text(value_text(eq)));
        },
        FilterExpr::In { any_of } => {
            if any_of.len() > 0 {
                sql.append(
                    " AND EXISTS (SELECT 1 FROM filter_values fv WHERE fv.record_id = r.record_id AND fv.field_name = ? AND fv.string_value IN (",
                );
                push_arg(args, SqlArg::Text(name.clone()));
                append_marks(sql, args, any_of);
                sql.append("))");
            }
        },
        FilterExpr::Range { gte, lte } => {
            sql.append(
                " AND EXISTS (SELECT 1 FROM filter_values fv WHERE fv.record_id = r.record_id AND fv.field_name = ?",
            );
            push_arg(args, SqlArg::Text(name.clone()));
            append_bound(
                sql,
                args,
                gte,
                " AND fv.number_value >= ?",
                " AND fv.string_value >= ?",
            );
            append_bound(
                sql,
                args,
                lte,
                " AND fv.number_value <= ?",
                " AND fv.string_value <= ?",
            );
            sql.append(")");
        },
    }
    assert(sql@ =~= sql0 + clause_sql(expr@));
    assert(arg_models(args@) =~= args0 + clause_args(name@, expr@));
}

/// Adds the conditions that the filters stand for to a statement on `records r`, and the values
/// that are bound to their marks.
pub fn append_filter_sql(
    sql: &mut String,
    args: &mut Vec<SqlArg>,
    filters: &TextMap<FilterExpr>,
)
    ensures
        final(sql)@ == old(sql)@ + filter_sql(protocol::filter_exprs(filters@)),
        arg_models(final(args)@) == arg_models(old(args)@) + filter_args(
            protocol::filter_exprs(filters@),
        ),
{
    let ghost all = protocol::filter_exprs(filters@);
    let mut i: usize = 0;
    assert(sql@ =~= old(sql)@ + filter_sql(all.take(0)));
    assert(arg_models(args@) =~= arg_models(old(args)@) + filter_args(all.take(0)));
    while i < filters.len()
        invariant
            i <= filters@.len(),
            all == protocol::filter_exprs(filters@),
            sql@ == old(sql)@ + filter_sql(all.take(i as int)),
            arg_models(args@) == arg_models(old(args)@) + filter_args(all.take(i as int)),
        decreases filters@.len() - i,
    {
        append_clause(sql, args, filters.key_at(i), filters.value_at(i));
        proof {
            assert(all.take(i + 1).drop_last() =~= all.take(i as int));
            assert(all.take(i + 1).last() == all[i as int]);
            assert(sql@ =~= old(sql)@ + filter_sql(all.take(i + 1)));
            assert(arg_models(args@) =~= arg_models(old(args)@) + filter_args(all.take(i + 1)));
        }
        i = i + 1;
    }
    assert(all.take(i as int) =~= all);
}

/// At least one.
pub open spec fn at_least_one(n: int) -> int {
    if n < 1 {
        1
    } else {
        n
    }
}

/// How many results a search lists at most.
pub fn result_limit(top_k: usize) -> (r: usize)
    ensures
        r == at_least_one(top_k as int),
{
    if top_k < 1 {
        1
    } else {
        top_k
    }
}

/// The conditions that the text of a record holds each of `n` words.
pub open spec fn like_sql(n: nat) -> Seq<char>
    decreases n,
{
    if n == 0 {
        Seq::empty()
    } else {
        like_sql((n - 1) as nat) + " AND r.searchable_text LIKE ?"@
    }
}

/// The patterns of texts that hold the words.
pub open spec fn like_args(words: Seq<Seq<char>>) -> Seq<ArgModel> {
    Seq::new(words.len(), |i: int| ArgModel::Text("%"@ + words[i] + "%"@))
}

/// The statement that looks for the words of a query in the text of the records.
pub open spec fn like_query(req: SearchModel) -> QueryModel {
    let found = text::words(req.query);
    QueryModel {
        sql: "SELECT r.record_id, r.display_json, r.payload_json, r.searchable_text, 0.0 AS rank FROM records r WHERE 1=1"@
            + like_sql(found.len()) + filter_sql(req.filters)
            + " ORDER BY r.record_id LIMIT ?"@,
        args: like_args(found) + filter_args(req.filters) + seq![
            ArgModel::Integer(at_least_one(req.top_k) as i64),
        ],
    }
}

/// The statement that looks for the words of the query in the text of the records, in the
/// order of their ids.
pub fn search_like(req: &SearchRequest) -> (r: SqlQuery)
    ensures
        r@ == like_query(req@),
{
    let found = split_words(req.query.as_str());
    let ghost base =
        "SELECT r.record_id, r.display_json, r.payload_json, r.searchable_text, 0.0 AS rank FROM records r WHERE 1=1"@;
    let ghost all = like_args(text::words(req.query@));
    let mut sql =
        "SELECT r.record_id, r.display_json, r.payload_json, r.searchable_text, 0.0 AS rank FROM records r WHERE 1=1".to_string();
    let mut args: Vec<SqlArg> = Vec::new();
    let mut i: usize = 0;
    proof {
        assert(text::texts(found@).len() == found@.len());
        assert(sql@ =~= base + like_sql(0));
        assert(arg_models(args@) =~= all.take(0));
    }
    while i < found.len()
        invariant
            i <= found@.len(),
            text::texts(found@) == text::words(req.query@),
            all == like_args(text::words(req.query@)),
            all.len() == found@.len(),
            sql@ == base + like_sql(i as nat),
            arg_models(args@) == all.take(i as int),
        decreases found@.len() - i,
    {
        sql.append(" AND r.searchable_text LIKE ?");
        let pattern = concat_text(concat_text("%", found[i].as_str()).as_str(), "%");
        push_arg(&mut args, SqlArg::Text(pattern));
        proof {
            assert(text::texts(found@)[i as int] == found@[i as int]@);
            assert(sql@ =~= base + like_sql((i + 1) as nat));
            assert(arg_models(args@) =~= all.take(i + 1));
        }
        i = i + 1;
    }
    assert(all.take(i as int) =~= all);
    append_filter_sql(&mut sql, &mut args, &req.filters);
    sql.append(" ORDER BY r.record_id LIMIT ?");
    push_arg(&mut args, SqlArg::Integer(result_limit(req.top_k) as i64));
    let r = SqlQuery { sql, args };
    proof {
        assert(r@.sql =~= like_query(req@).sql);
        assert(r@.args =~= like_query(req@).args);
    }
    r
}

/// Texts as bound values.
pub open spec fn text_args(ids: Seq<Seq<char>>) -> Seq<ArgModel> {
    Seq::new(ids.len(), |i: int| ArgModel::Text(ids[i]))
}

/// The statement that fetches the records with the given ids.
pub open spec fn page_query(
    ids: Seq<Seq<char>>,
    filters: Seq<(Seq<char>, ExprModel)>,
) -> QueryModel {
    QueryModel {
        sql: "SELECT r.record_id, r.display_json, r.payload_json, r.searchable_text, 0.0 AS rank FROM records r WHERE r.record_id IN ("@
            + mark_list(ids.len()) + ")"@ + filter_sql(filters),
        args: text_args(ids) + filter_args(filters),
    }
}

/// The statements that fetch the records with the given ids, two hundred at a time.
pub open spec fn page_queries(
    ids: Seq<Seq<char>>,
    filters: Seq<(Seq<char>, ExprModel)>,
) -> Seq<QueryModel>
    decreases ids.len(),
{
    if ids.len() == 0 {
        Seq::empty()
    } else if ids.len() <= 200 {
        seq![page_query(ids, filters)]
    } else {
        seq![page_query(ids.take(200), filters)] + page_queries(ids.skip(200), filters)
    }
}

fn fetch_page(
    ids: &Vec<String>,
    from: usize,
    to: usize,
    filters: &TextMap<FilterExpr>,
) -> (r: SqlQuery)
    requires
        from <= to <= ids@.len(),
    ensures
        r@ == page_query(
            text::texts(ids@).subrange(from as int, to as int),
            protocol::filter_exprs(filters@),
        ),
{
    let ghost page = text::texts(ids@).subrange(from as int, to as int);
    let ghost all = text_args(page);
    let ghost base =
        "SELECT r.record_id, r.display_json, r.payload_json, r.searchable_text, 0.0 AS rank FROM records r WHERE r.record_id IN ("@;
    let mut sql =
        "SELECT r.record_id, r.display_json, r.payload_json, r.searchable_text, 0.0 AS rank FROM records r WHERE r.record_id IN (".to_string();
    let mut args: Vec<SqlArg> = Vec::new();
    let mut i: usize = from;
    assert(sql@ =~= base + mark_list(0));
    assert(arg_models(args@) =~= all.take(0));
    while i < to
        invariant
            from <= i <= to <= ids@.len(),
            page == text::texts(ids@).subrange(from as int, to as int),
            all == text_args(page),
            sql@ == base + mark_list((i - from) as nat),
            arg_models(args@) == all.take(i - from),
        decreases to - i,
    {
        if i > from {
            sql.push(',');
        }
        sql.push('?');
        push_arg(&mut args, SqlArg::Text(ids[i].clone()));
        proof {
            assert(page[i - from] == ids@[i as int]@);
            assert(sql@ =~= base + mark_list((i + 1 - from) as nat));
            assert(arg_models(args@) =~= all.take(i + 1 - from));
        }
        i = i + 1;
    }
    assert(all.take(to - from) =~= all);
    sql.append(")");
    append_filter_sql(&mut sql, &mut args, filters);
    let r = SqlQuery { sql, args };
    proof {
        let want = page_query(page, protocol::filter_exprs(filters@));
        assert(r@.sql =~= want.sql);
        assert(r@.args =~= want.args);
    }
    r
}

/// The statements that fetch the records with the given ids, as far as they meet the filters.
pub fn fetch_records(ids: &Vec<String>, filters: &TextMap<FilterExpr>) -> (r: Vec<SqlQuery>)
    ensures
        query_models(r@) == page_queries(text::texts(ids@), protocol::filter_exprs(filters@)),
{
    let ghost all = text::texts(ids@);
    let ghost exprs = protocol::filter_exprs(filters@);
    let mut out: Vec<SqlQuery> = Vec::new();
    let mut from: usize = 0;
    assert(all.skip(0) =~= all);
    assert(query_models(out@) + page_queries(all.skip(0), exprs) =~= page_queries(all, exprs));
    while from < ids.len()
        invariant
            from <= ids@.len(),
            all == text::texts(ids@),
            exprs == protocol::filter_exprs(filters@),
            query_models(out@) + page_queries(all.skip(from as int), exprs) == page_queries(
                all,
                exprs,
            ),
        decreases ids@.len() - from,
    {
        let ghost before = query_models(out@);
        let ghost rest = all.skip(from as int);
        let to: usize = if ids.len() - from <= 200 {
            ids.len()
        } else {
            from + 200
        };
        let query = fetch_page(ids, from, to, filters);
        out.push(query);
        proof {
            assert(query_models(out@) =~= before.push(query@));
            if ids@.len() - from <= 200 {
                assert(all.subrange(from as int, to as int) =~= rest);
                assert(all.skip(to as int).len() == 0);
            } else {
                assert(all.subrange(from as int, to as int) =~= rest.take(200));
                assert(rest.skip(200) =~= all.skip(to as int));
            }
            assert(query_models(out@) + page_queries(all.skip(to as int), exprs) =~= before
                + page_queries(rest, exprs));
        }
        from = to;
    }
    assert(all.skip(from as int).len() == 0);
    assert(query_models(out@) =~= page_queries(all, exprs));
    out
}

/// The statement that fetches one record, as far as it meets the filters.
pub open spec fn record_query(
    record_id: Seq<char>,
    filters: Seq<(Seq<char>, ExprModel)>,
) -> QueryModel {
    QueryModel {
        sql: "SELECT r.record_id, r.display_json, r.payload_json, r.searchable_text, 0.0 AS rank FROM records r WHERE r.record_id = ?"@
            + filter_sql(filters),
        args: seq![ArgModel::Text(record_id)] + filter_args(filters),
    }
}

/// The statement that fetches one record, as far as it meets the filters.
pub fn fetch_record(record_id: &str, filters: &TextMap<FilterExpr>) -> (r: SqlQuery)
    ensures
        r@ == record_query(record_id@, protocol::filter_exprs(filters@)),
{
    let mut sql =
        "SELECT r.record_id, r.display_json, r.payload_json, r.searchable_text, 0.0 AS rank FROM records r WHERE r.record_id = ?".to_string();
    let mut args: Vec<SqlArg> = Vec::new();
    push_arg(&mut args, SqlArg::Text(record_id.to_string()));
    append_filter_sql(&mut sql, &mut args, filters);
    let r = SqlQuery { sql, args };
    proof {
        let want = record_query(record_id@, protocol::filter_exprs(filters@));
        assert(r@.sql =~= want.sql);
        assert(r@.args =~= want.args);
    }
    r
}

/// The statement that has a row where a record meets the filters.
pub open spec fn match_query(
    record_id: Seq<char>,
    filters: Seq<(Seq<char>, ExprModel)>,
) -> QueryModel {
    QueryModel {
        sql: "SELECT 1 FROM records r WHERE r.record_id = ?"@ + filter_sql(filters) + " LIMIT 1"@,
        args: seq![ArgModel::Text(record_id)] + filter_args(filters),
    }
}

/// The statement that has a row where the record meets the filters. There is none where there
/// are no filters, which every record meets.
pub fn record_matches_filters(record_id: &str, filters: &TextMap<FilterExpr>) -> (r: Option<
    SqlQuery,
>)
    ensures
        filters@.len() == 0 ==> r is None,
        filters@.len() > 0 ==> r is Some && r->0@ == match_query(
            record_id@,
            protocol::filter_exprs(filters@),
        ),
{
    if filters.is_empty() {
        return None;
    }
    let mut sql = "SELECT 1 FROM records r WHERE r.record_id = ?".to_string();
    let mut args: Vec<SqlArg> = Vec::new();
    push_arg(&mut args, SqlArg::Text(record_id.to_string()));
    append_filter_sql(&mut sql, &mut args, filters);
    sql.append(" LIMIT 1");
    let r = SqlQuery { sql, args };
    proof {
        let want = match_query(record_id@, protocol::filter_exprs(filters@));
        assert(r@.sql =~= want.sql);
        assert(r@.args =~= want.args);
    }
    Some(r)
}

/// The statement that counts the tables of a name.
pub open spec fn table_query(table: Seq<char>) -> QueryModel {
    QueryModel {
        sql: "SELECT COUNT(*) FROM sqlite_master WHERE type = 'table' AND name = ?"@,
        args: seq![ArgModel::Text(table)],
    }
}

/// The statement that counts the tables of a name: there is such a table where it counts any.
pub fn table_exists(table: &str) -> (r: SqlQuery)
    ensures
        r@ == table_query(table@),
{
    let sql = "SELECT COUNT(*) FROM sqlite_master WHERE type = 'table' AND name = ?".to_string();
    let mut args: Vec<SqlArg> = Vec::new();
    push_arg(&mut args, SqlArg::Text(table.to_string()));
    let r = SqlQuery { sql, args };
    assert(r@.args =~= table_query(table@).args);
    r
}

/// The statement that lists the columns of a table; the second value of a row is a name.
pub fn list_columns(table: &str) -> (r: SqlQuery)
    ensures
        r@ == (QueryModel {
            sql: "PRAGMA table_info("@ + table@ + ")"@,
            args: Seq::<ArgModel>::empty(),
        }),
{
    let mut sql = "PRAGMA table_info(".to_string();
    sql.append(table);
    sql.append(")");
    let args: Vec<SqlArg> = Vec::new();
    let r = SqlQuery { sql, args };
    assert(r@.args =~= Seq::<ArgModel>::empty());
    r
}

/// Whether a column is among those of a table.
pub fn column_exists(columns: &Vec<String>, column: &str) -> (r: bool)
    ensures
        r == text::texts(columns@).contains(column@),
{
    let mut i: usize = 0;
    while i < columns.len()
        invariant
            i <= columns@.len(),
            forall|j: int| 0 <= j < i ==> (#[trigger] columns@[j])@ != column@,
        decreases columns@.len() - i,
    {
        if same_text(&columns[i], column) {
            assert(text::texts(columns@)[i as int] == column@);
            return true;
        }
        i = i + 1;
    }
    assert forall|j: int| 0 <= j < columns@.len() implies #[trigger] text::texts(columns@)[j]
        != column@ by {
        assert(columns@[j]@ != column@);
    }
    false
}

/// The statement that fetches a chunk. Where chunks have no text of their own, it comes with
/// the text of the record and the place of the chunk in it.
pub open spec fn chunk_query(chunk_id: Seq<char>, has_text: bool) -> QueryModel {
    QueryModel {
        sql: if has_text {
            "SELECT record_id, chunk_index, 0 AS start_char, 0 AS end_char, chunk_text FROM chunks WHERE chunk_id = ?"@
        } else {
            "SELECT c.record_id, c.chunk_index, c.start_char, c.end_char, r.searchable_text FROM chunks c JOIN records r ON r.record_id = c.record_id WHERE c.chunk_id = ?"@
        },
        args: seq![ArgModel::Text(chunk_id)],
    }
}

/// The statement that fetches a chunk: the id of its record, its number, where its text starts
/// and ends, and a text. Where both places are zero the text is that of the chunk, else that
/// of the record.
pub fn fetch_chunk(chunk_id: &str, has_text: bool) -> (r: SqlQuery)
    ensures
        r@ == chunk_query(chunk_id@, has_text),
{
    let sql = if has_text {
        "SELECT record_id, chunk_index, 0 AS start_char, 0 AS end_char, chunk_text FROM chunks WHERE chunk_id = ?".to_string()
    } else {
        "SELECT c.record_id, c.chunk_index, c.start_char, c.end_char, r.searchable_text FROM chunks c JOIN records r ON r.record_id = c.record_id WHERE c.chunk_id = ?".to_string()
    };
    let mut args: Vec<SqlArg> = Vec::new();
    push_arg(&mut args, SqlArg::Text(chunk_id.to_string()));
    let r = SqlQuery { sql, args };
    assert(r@.args =~= chunk_query(chunk_id@, has_text).args);
    r
}

/// How many marks there are among the first `n` characters of a statement.
pub open spec fn marks_in(s: Seq<char>, n: nat) -> nat
    decreases n,
{
    if n == 0 {
        0
    } else {
        marks_in(s, (n - 1) as nat) + (if s[n - 1] == '?' {
            1nat
        } else {
            0nat
        })
    }
}

/// How many marks there are in a statement.
pub open spec fn marks(s: Seq<char>) -> nat {
    marks_in(s, s.len())
}

proof fn lemma_marks_in_prefix(a: Seq<char>, b: Seq<char>, n: nat)
    requires
        n <= a.len(),
    ensures
        marks_in(a + b, n) == marks_in(a, n),
    decreases n,
{
    if n > 0 {
        lemma_marks_in_prefix(a, b, (n - 1) as nat);
    }
}

proof fn lemma_marks_in_concat(a: Seq<char>, b: Seq<char>, n: nat)
    requires
        n <= b.len(),
    ensures
        marks_in(a + b, a.len() + n) == marks(a) + marks_in(b, n),
    decreases n,
{
    if n == 0 {
        lemma_marks_in_prefix(a, b, a.len());
    } else {
        lemma_marks_in_concat(a, b, (n - 1) as nat);
        assert((a + b)[a.len() + n - 1] == b[n - 1]);
    }
}

proof fn lemma_marks_concat(a: Seq<char>, b: Seq<char>)
    ensures
        marks(a + b) == marks(a) + marks(b),
{
    lemma_marks_in_concat(a, b, b.len());
}

proof fn lemma_marks_of_eq_text()
    ensures
        marks(" AND EXISTS (SELECT 1 FROM filter_values fv WHERE fv.record_id = r.record_id AND fv.field_name = ? AND fv.string_value = ?)"@)
            == 2,
{
    let s =
        " AND EXISTS (SELECT 1 FROM filter_values fv WHERE fv.record_id = r.record_id AND fv.field_name = ? AND fv.string_value = ?)"@;
    reveal_strlit(" AND EXISTS (SELECT 1 FROM filter_values fv WHERE fv.record_id = r.record_id AND fv.field_name = ? AND fv.string_value = ?)");
    reveal_with_fuel(marks_in, 41);
    assert(marks_in(s, 40) == 0);
    assert(marks_in(s, 80) == 0);
    assert(marks_in(s, 120) == 1);
}

proof fn lemma_marks_of_in_text()
    ensures
        marks(" AND EXISTS (SELECT 1 FROM filter_values fv WHERE fv.record_id = r.record_id AND fv.field_name = ? AND fv.string_value IN ("@)
            == 1,
{
    let s =
        " AND EXISTS (SELECT 1 FROM filter_values fv WHERE fv.record_id = r.record_id AND fv.field_name = ? AND fv.string_value IN ("@;
    reveal_strlit(" AND EXISTS (SELECT 1 FROM filter_values fv WHERE fv.record_id = r.record_id AND fv.field_name = ? AND fv.string_value IN (");
    reveal_with_fuel(marks_in, 41);
    assert(marks_in(s, 40) == 0);
    assert(marks_in(s, 80) == 0);
    assert(marks_in(s, 120) == 1);
}

proof fn lemma_marks_of_range_text()
    ensures
        marks(" AND EXISTS (SELECT 1 FROM filter_values fv WHERE fv.record_id = r.record_id AND fv.field_name = ?"@)
            == 1,
{
    let s =
        " AND EXISTS (SELECT 1 FROM filter_values fv WHERE fv.record_id = r.record_id AND fv.field_name = ?"@;
    reveal_strlit(" AND EXISTS (SELECT 1 FROM filter_values fv WHERE fv.record_id = r.record_id AND fv.field_name = ?");
    reveal_with_fuel(marks_in, 41);
    assert(marks_in(s, 40) == 0);
    assert(marks_in(s, 80) == 0);
}

proof fn lemma_marks_of_like_text()
    ensures
        marks("SELECT r.record_id, r.display_json, r.payload_json, r.searchable_text, 0.0 AS rank FROM records r WHERE 1=1"@)
            == 0,
{
    let s =
        "SELECT r.record_id, r.display_json, r.payload_json, r.searchable_text, 0.0 AS rank FROM records r WHERE 1=1"@;
    reveal_strlit("SELECT r.record_id, r.display_json, r.payload_json, r.searchable_text, 0.0 AS rank FROM records r WHERE 1=1");
    reveal_with_fuel(marks_in, 41);
    assert(marks_in(s, 40) == 0);
    assert(marks_in(s, 80) == 0);
}

proof fn lemma_marks_of_page_text()
    ensures
        marks("SELECT r.record_id, r.display_json, r.payload_json, r.searchable_text, 0.0 AS rank FROM records r WHERE r.record_id IN ("@)
            == 0,
{
    let s =
        "SELECT r.record_id, r.display_json, r.payload_json, r.searchable_text, 0.0 AS rank FROM records r WHERE r.record_id IN ("@;
    reveal_strlit("SELECT r.record_id, r.display_json, r.payload_json, r.searchable_text, 0.0 AS rank FROM records r WHERE r.record_id IN (");
    reveal_with_fuel(marks_in, 41);
    assert(marks_in(s, 40) == 0);
    assert(marks_in(s, 80) == 0);
}

proof fn lemma_marks_of_record_text()
    ensures
        marks("SELECT r.record_id, r.display_json, r.payload_json, r.searchable_text, 0.0 AS rank FROM records r WHERE r.record_id = ?"@)
            == 1,
{
    let s =
        "SELECT r.record_id, r.display_json, r.payload_json, r.searchable_text, 0.0 AS rank FROM records r WHERE r.record_id = ?"@;
    reveal_strlit("SELECT r.record_id, r.display_json, r.payload_json, r.searchable_text, 0.0 AS rank FROM records r WHERE r.record_id = ?");
    reveal_with_fuel(marks_in, 41);
    assert(marks_in(s, 40) == 0);
    assert(marks_in(s, 80) == 0);
}

proof fn lemma_marks_of_short_texts()
    ensures
        marks(" AND fv.number_value >= ?"@) == 1,
        marks(" AND fv.string_value >= ?"@) == 1,
        marks(" AND fv.number_value <= ?"@) == 1,
        marks(" AND fv.string_value <= ?"@) == 1,
        marks(" AND r.searchable_text LIKE ?"@) == 1,
        marks(" ORDER BY r.record_id LIMIT ?"@) == 1,
        marks("SELECT 1 FROM records r WHERE r.record_id = ?"@) == 1,
        marks(" LIMIT 1"@) == 0,
        marks(")"@) == 0,
        marks("))"@) == 0,
{
    reveal_strlit(" AND fv.number_value >= ?");
    reveal_strlit(" AND fv.string_value >= ?");
    reveal_strlit(" AND fv.number_value <= ?");
    reveal_strlit(" AND fv.string_value <= ?");
    reveal_strlit(" AND r.searchable_text LIKE ?");
    reveal_strlit(" ORDER BY r.record_id LIMIT ?");
    reveal_strlit("SELECT 1 FROM records r WHERE r.record_id = ?");
    reveal_strlit(" LIMIT 1");
    reveal_strlit(")");
    reveal_strlit("))");
    reveal_with_fuel(marks_in, 46);
}

proof fn lemma_marks_of_list(n: nat)
    ensures
        marks(mark_list(n)) == n,
    decreases n,
{
    reveal_with_fuel(marks_in, 3);
    if n > 1 {
        lemma_marks_of_list((n - 1) as nat);
        lemma_marks_concat(mark_list((n - 1) as nat), seq![',', '?']);
    }
}

proof fn lemma_marks_of_bound(
    bound: Option<JsonModel>,
    by_number: Seq<char>,
    by_text: Seq<char>,
)
    requires
        marks(by_number) == 1,
        marks(by_text) == 1,
    ensures
        marks(bound_sql(bound, by_number, by_text)) == bound_args(bound).len(),
{
}

proof fn lemma_marks_of_clause(name: Seq<char>, expr: ExprModel)
    ensures
        marks(clause_sql(expr)) == clause_args(name, expr).len(),
{
    lemma_marks_of_short_texts();
    match expr {
        ExprModel::Eq(_) => {
            lemma_marks_of_eq_text();
        },
        ExprModel::In(values) => {
            if values.len() > 0 {
                let head =
                    " AND EXISTS (SELECT 1 FROM filter_values fv WHERE fv.record_id = r.record_id AND fv.field_name = ? AND fv.string_value IN ("@;
                lemma_marks_of_in_text();
                lemma_marks_of_list(values.len());
                lemma_marks_concat(head, mark_list(values.len()));
                lemma_marks_concat(head + mark_list(values.len()), "))"@);
            }
        },
        ExprModel::Range(gte, lte) => {
            let head =
                " AND EXISTS (SELECT 1 FROM filter_values fv WHERE fv.record_id = r.record_id AND fv.field_name = ?"@;
            let low = bound_sql(gte, " AND fv.number_value >= ?"@, " AND fv.string_value >= ?"@);
            let high = bound_sql(lte, " AND fv.number_value <= ?"@, " AND fv.string_value <= ?"@);
            lemma_marks_of_range_text();
            lemma_marks_of_bound(gte, " AND fv.number_value >= ?"@, " AND fv.string_value >= ?"@);
            lemma_marks_of_bound(lte, " AND fv.number_value <= ?"@, " AND fv.string_value <= ?"@);
            lemma_marks_concat(head, low);
            lemma_marks_concat(head + low, high);
            lemma_marks_concat(head + low + high, ")"@);
        },
    }
}

proof fn lemma_marks_of_filters(filters: Seq<(Seq<char>, ExprModel)>)
    ensures
        marks(filter_sql(filters)) == filter_args(filters).len(),
    decreases filters.len(),
{
    if filters.len() > 0 {
        lemma_marks_of_filters(filters.drop_last());
        lemma_marks_of_clause(filters.last().0, filters.last().1);
        lemma_marks_concat(filter_sql(filters.drop_last()), clause_sql(filters.last().1));
    }
}

proof fn lemma_marks_of_like(n: nat)
    ensures
        marks(like_sql(n)) == n,
    decreases n,
{
    if n > 0 {
        lemma_marks_of_short_texts();
        lemma_marks_of_like((n - 1) as nat);
        lemma_marks_concat(like_sql((n - 1) as nat), " AND r.searchable_text LIKE ?"@);
    }
}

/// The statement that looks for words has one value for each of its marks.
pub proof fn law_like_query_is_bound(req: SearchModel)
    ensures
        marks(like_query(req).sql) == like_query(req).args.len(),
{
    let n = text::words(req.query).len();
    let head =
        "SELECT r.record_id, r.display_json, r.payload_json, r.searchable_text, 0.0 AS rank FROM records r WHERE 1=1"@;
    lemma_marks_of_short_texts();
    lemma_marks_of_like_text();
    lemma_marks_of_like(n);
    lemma_marks_of_filters(req.filters);
    lemma_marks_concat(head, like_sql(n));
    lemma_marks_concat(head + like_sql(n), filter_sql(req.filters));
    lemma_marks_concat(
        head + like_sql(n) + filter_sql(req.filters),
        " ORDER BY r.record_id LIMIT ?"@,
    );
}

/// A statement that fetches records has one value for each of its marks.
pub proof fn law_page_query_is_bound(
    ids: Seq<Seq<char>>,
    filters: Seq<(Seq<char>, ExprModel)>,
)
    ensures
        marks(page_query(ids, filters).sql) == page_query(ids, filters).args.len(),
{
    let head =
        "SELECT r.record_id, r.display_json, r.payload_json, r.searchable_text, 0.0 AS rank FROM records r WHERE r.record_id IN ("@;
    lemma_marks_of_short_texts();
    lemma_marks_of_page_text();
    lemma_marks_of_list(ids.len());
    lemma_marks_of_filters(filters);
    lemma_marks_concat(head, mark_list(ids.len()));
    lemma_marks_concat(head + mark_list(ids.len()), ")"@);
    lemma_marks_concat(head + mark_list(ids.len()) + ")"@, filter_sql(filters));
}

/// The statements on one record have one value for each of their marks.
pub proof fn law_record_queries_are_bound(
    record_id: Seq<char>,
    filters: Seq<(Seq<char>, ExprModel)>,
)
    ensures
        marks(record_query(record_id, filters).sql) == record_query(record_id, filters).args.len(),
        marks(match_query(record_id, filters).sql) == match_query(record_id, filters).args.len(),
{
    lemma_marks_of_short_texts();
    lemma_marks_of_record_text();
    lemma_marks_of_filters(filters);
    lemma_marks_concat(
        "SELECT r.record_id, r.display_json, r.payload_json, r.searchable_text, 0.0 AS rank FROM records r WHERE r.record_id = ?"@,
        filter_sql(filters),
    );
    lemma_marks_concat("SELECT 1 FROM records r WHERE r.record_id = ?"@, filter_sql(filters));
    lemma_marks_concat(
        "SELECT 1 FROM records r WHERE r.record_id = ?"@ + filter_sql(filters),
        " LIMIT 1"@,
    );
}

proof fn lemma_marks_of_chunk_text()
    ensures
        marks("SELECT record_id, chunk_index, 0 AS start_char, 0 AS end_char, chunk_text FROM chunks WHERE chunk_id = ?"@)
            == 1,
{
    let s =
        "SELECT record_id, chunk_index, 0 AS start_char, 0 AS end_char, chunk_text FROM chunks WHERE chunk_id = ?"@;
    reveal_strlit("SELECT record_id, chunk_index, 0 AS start_char, 0 AS end_char, chunk_text FROM chunks WHERE chunk_id = ?");
    reveal_with_fuel(marks_in, 41);
    assert(marks_in(s, 40) == 0);
    assert(marks_in(s, 80) == 0);
}

proof fn lemma_marks_of_joined_chunk_text()
    ensures
        marks("SELECT c.record_id, c.chunk_index, c.start_char, c.end_char, r.searchable_text FROM chunks c JOIN records r ON r.record_id = c.record_id WHERE c.chunk_id = ?"@)
            == 1,
{
    let s =
        "SELECT c.record_id, c.chunk_index, c.start_char, c.end_char, r.searchable_text FROM chunks c JOIN records r ON r.record_id = c.record_id WHERE c.chunk_id = ?"@;
    reveal_strlit("SELECT c.record_id, c.chunk_index, c.start_char, c.end_char, r.searchable_text FROM chunks c JOIN records r ON r.record_id = c.record_id WHERE c.chunk_id = ?");
    reveal_with_fuel(marks_in, 41);
    assert(marks_in(s, 40) == 0);
    assert(marks_in(s, 80) == 0);
    assert(marks_in(s, 120) == 0);
}

proof fn lemma_marks_of_table_text()
    ensures
        marks("SELECT COUNT(*) FROM sqlite_master WHERE type = 'table' AND name = ?"@) == 1,
{
    let s = "SELECT COUNT(*) FROM sqlite_master WHERE type = 'table' AND name = ?"@;
    reveal_strlit("SELECT COUNT(*) FROM sqlite_master WHERE type = 'table' AND name = ?");
    reveal_with_fuel(marks_in, 41);
    assert(marks_in(s, 30) == 0);
    assert(marks_in(s, 60) == 0);
}

/// The statements on a chunk and on a table have one value for each of their marks.
pub proof fn law_chunk_queries_are_bound(chunk_id: Seq<char>, has_text: bool, table: Seq<char>)
    ensures
        marks(chunk_query(chunk_id, has_text).sql) == chunk_query(chunk_id, has_text).args.len(),
        marks(table_query(table).sql) == table_query(table).args.len(),
{
    lemma_marks_of_chunk_text();
    lemma_marks_of_joined_chunk_text();
    lemma_marks_of_table_text();
}

/// The ids that a list of statements asks for.
pub open spec fn pages(ids: Seq<Seq<char>>) -> Seq<Seq<Seq<char>>>
    decreases ids.len(),
{
    if ids.len() == 0 {
        Seq::empty()
    } else if ids.len() <= 200 {
        seq![ids]
    } else {
        seq![ids.take(200)] + pages(ids.skip(200))
    }
}

/// Every id is asked for once, in its order, and no statement asks for more than two hundred.
pub proof fn law_pages(ids: Seq<Seq<char>>, filters: Seq<(Seq<char>, ExprModel)>)
    ensures
        pages(ids).flatten() == ids,
        forall|i: int| 0 <= i < pages(ids).len() ==> 0 < (#[trigger] pages(ids)[i]).len() <= 200,
        page_queries(ids, filters) == Seq::new(
            pages(ids).len(),
            |i: int| page_query(pages(ids)[i], filters),
        ),
    decreases ids.len(),
{
    reveal_with_fuel(Seq::flatten, 2);
    if ids.len() == 0 {
    } else if ids.len() <= 200 {
        assert(pages(ids).skip(1).flatten() =~= Seq::empty());
        assert(pages(ids).flatten() =~= ids);
    } else {
        law_pages(ids.skip(200), filters);
        let all = pages(ids);
        let rest = pages(ids.skip(200));
        assert(all.drop_first() =~= rest);
        assert(ids =~= ids.take(200) + ids.skip(200));
        assert(all.flatten() =~= ids);
        assert forall|i: int| 0 <= i < all.len() implies 0 < (#[trigger] all[i]).len() <= 200 by {
            if i > 0 {
                assert(all[i] == rest[i - 1]);
            }
        }
    }
    assert(page_queries(ids, filters) =~= Seq::new(
        pages(ids).len(),
        |i: int| page_query(pages(ids)[i], filters),
    ));
}

/// All statements that fetch records but the last one ask for two hundred of them; so there are as
/// few statements as there can be.
pub proof fn law_pages_are_full(ids: Seq<Seq<char>>, filters: Seq<(Seq<char>, ExprModel)>)
    ensures
        forall|i: int| 0 <= i < pages(ids).len() - 1 ==> (#[trigger] pages(ids)[i]).len() == 200,
        page_queries(ids, filters).len() == (ids.len() + 199) / 200,
        forall|i: int|
            0 <= i < page_queries(ids, filters).len() - 1 ==> (#[trigger] page_queries(
                ids,
                filters,
            )[i]).args.len() == 200 + filter_args(filters).len(),
    decreases ids.len(),
{
    let all = page_queries(ids, filters);
    law_pages(ids, filters);
    if ids.len() > 200 {
        let more = ids.skip(200);
        let rest = pages(more);
        law_pages_are_full(more, filters);
        assert forall|i: int| 0 <= i < pages(ids).len() - 1 implies (#[trigger] pages(ids)[i]).len()
            == 200 by {
            if i > 0 {
                assert(pages(ids)[i] == rest[i - 1]);
            }
        }
    }
    assert forall|i: int| 0 <= i < all.len() - 1 implies (#[trigger] all[i]).args.len() == 200
        + filter_args(filters).len() by {
        assert(all[i] == page_query(pages(ids)[i], filters));
    }
}

/// Marks for values stand apart by commas: as many marks as values, and a comma between any two.
pub proof fn law_mark_list(n: nat)
    ensures
        n > 0 ==> mark_list(n).len() == 2 * n - 1,
        n == 0 ==> mark_list(n).len() == 0,
        forall|i: int|
            0 <= i < mark_list(n).len() ==> (#[trigger] mark_list(n)[i]) == if i % 2 == 0 {
                '?'
            } else {
                ','
            },
    decreases n,
{
    if n > 1 {
        let before = mark_list((n - 1) as nat);
        law_mark_list((n - 1) as nat);
        assert forall|i: int| 0 <= i < mark_list(n).len() implies (#[trigger] mark_list(n)[i])
            == if i % 2 == 0 {
            '?'
        } else {
            ','
        } by {
            if i < before.len() {
                assert(mark_list(n)[i] == before[i]);
            }
        }
    }
}

} // verus!
