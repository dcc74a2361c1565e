//! What is written to the record database when an index is built.
use vstd::prelude::*;
use vstd::string::*;

use crate::chunking;
use crate::chunking::{ChunkModel, PreparedChunk};
use crate::clock;
use crate::clock::time_stamp;
use crate::json::{JsonModel, JsonValue};
use crate::protocol::ExprModel;
use crate::schema;
use crate::schema::{PreparedRecord, RecordModel};
use crate::sql;
use crate::sql::{ArgModel, QueryModel, SqlArg, SqlQuery};

verus! {

/// The statements that lay out an empty database.
pub open spec fn layout() -> Seq<char> {
    "PRAGMA journal_mode = WAL; CREATE TABLE records ( dataset_id TEXT NOT NULL, record_id TEXT NOT NULL, searchable_text TEXT NOT NULL, payload_json TEXT NOT NULL, display_json TEXT NOT NULL, indexed_at TEXT NOT NULL, row_hash TEXT NOT NULL, PRIMARY KEY(dataset_id, record_id) ); CREATE TABLE filter_values ( record_id TEXT NOT NULL, field_name TEXT NOT NULL, string_value TEXT, number_value REAL, bool_value INTEGER ); CREATE INDEX idx_filter_values ON filter_values(field_name, string_value, number_value, bool_value); CREATE TABLE chunks ( chunk_id TEXT PRIMARY KEY, record_id TEXT NOT NULL, chunk_index INTEGER NOT NULL, start_char INTEGER NOT NULL, end_char INTEGER NOT NULL, chunk_text TEXT NOT NULL ); CREATE INDEX idx_chunks_record_id ON chunks(record_id);"@
}

/// The statements that lay out an empty database.
pub fn create_tables() -> (r: String)
    ensures
        r@ == layout(),
{
    "PRAGMA journal_mode = WAL; CREATE TABLE records ( dataset_id TEXT NOT NULL, record_id TEXT NOT NULL, searchable_text TEXT NOT NULL, payload_json TEXT NOT NULL, display_json TEXT NOT NULL, indexed_at TEXT NOT NULL, row_hash TEXT NOT NULL, PRIMARY KEY(dataset_id, record_id) ); CREATE TABLE filter_values ( record_id TEXT NOT NULL, field_name TEXT NOT NULL, string_value TEXT, number_value REAL, bool_value INTEGER ); CREATE INDEX idx_filter_values ON filter_values(field_name, string_value, number_value, bool_value); CREATE TABLE chunks ( chunk_id TEXT PRIMARY KEY, record_id TEXT NOT NULL, chunk_index INTEGER NOT NULL, start_char INTEGER NOT NULL, end_char INTEGER NOT NULL, chunk_text TEXT NOT NULL ); CREATE INDEX idx_chunks_record_id ON chunks(record_id);".to_string()
}

/// The text under which a filter value is found.
pub open spec fn string_value(value: JsonModel) -> ArgModel {
    match value.scalar_text() {
        Some(t) => ArgModel::Text(t),
        None => ArgModel::Null,
    }
}

/// The number under which a filter value is found.
pub open spec fn number_value(value: JsonModel) -> ArgModel {
    match value {
        JsonModel::Number(t) => ArgModel::Real(t),
        _ => ArgModel::Null,
    }
}

/// The truth value under which a filter value is found.
pub open spec fn bool_value(value: JsonModel) -> ArgModel {
    match value {
        JsonModel::Bool(b) => ArgModel::Integer(
            if b {
                1
            } else {
                0
            },
        ),
        _ => ArgModel::Null,
    }
}

/// The statement that writes a record.
pub open spec fn record_row(
    dataset_id: Seq<char>,
    indexed_at: Seq<char>,
    record: RecordModel,
) -> QueryModel {
    QueryModel {
        sql: "INSERT INTO records VALUES (?1, ?2, ?3, ?4, ?5, ?6, ?7)"@,
        args: seq![
            ArgModel::Text(dataset_id),
            ArgModel::Text(record.record_id),
            ArgModel::Text(record.searchable_text),
            ArgModel::Text(record.payload_json),
            ArgModel::Text(record.display_json),
            ArgModel::Text(indexed_at),
            ArgModel::Text(record.row_hash),
        ],
    }
}

/// The statement that writes a filter value of a record.
pub open spec fn filter_row(
    record_id: Seq<char>,
    field: Seq<char>,
    value: JsonModel,
) -> QueryModel {
    QueryModel {
        sql: "INSERT INTO filter_values(record_id, field_name, string_value, number_value, bool_value) VALUES (?1, ?2, ?3, ?4, ?5)"@,
        args: seq![
            ArgModel::Text(record_id),
            ArgModel::Text(field),
            string_value(value),
            number_value(value),
            bool_value(value),
        ],
    }
}

/// The statement that writes a chunk.
pub open spec fn chunk_row(chunk: ChunkModel) -> QueryModel {
    QueryModel {
        sql: "INSERT INTO chunks(chunk_id, record_id, chunk_index, start_char, end_char, chunk_text) VALUES (?1, ?2, ?3, ?4, ?5, ?6)"@,
        args: seq![
            ArgModel::Text(chunk.chunk_id),
            ArgModel::Text(chunk.record_id),
            ArgModel::Integer(chunk.chunk_index as i64),
            ArgModel::Integer(chunk.start as i64),
            ArgModel::Integer(chunk.end as i64),
            ArgModel::Text(chunk.text),
        ],
    }
}

/// The statements that write the filter values of a record.
pub open spec fn filter_rows(
    record_id: Seq<char>,
    filters: Seq<(Seq<char>, JsonModel)>,
) -> Seq<QueryModel> {
    Seq::new(filters.len(), |i: int| filter_row(record_id, filters[i].0, filters[i].1))
}

/// The statements that write records and their filter values.
pub open spec fn record_rows(
    dataset_id: Seq<char>,
    indexed_at: Seq<char>,
    records: Seq<RecordModel>,
) -> Seq<QueryModel>
    decreases records.len(),
{
    if records.len() == 0 {
        Seq::empty()
    } else {
        record_rows(dataset_id, indexed_at, records.drop_last()) + seq![
            record_row(dataset_id, indexed_at, records.last()),
        ] + filter_rows(records.last().record_id, records.last().filters)
    }
}

/// The statements that write chunks.
pub open spec fn chunk_rows(chunks: Seq<ChunkModel>) -> Seq<QueryModel> {
    Seq::new(chunks.len(), |i: int| chunk_row(chunks[i]))
}

/// The statements that fill the database.
pub open spec fn database_rows(
    dataset_id: Seq<char>,
    indexed_at: Seq<char>,
    records: Seq<RecordModel>,
    chunks: Seq<ChunkModel>,
) -> Seq<QueryModel> {
    record_rows(dataset_id, indexed_at, records) + chunk_rows(chunks)
}

fn insert_record(dataset_id: &str, indexed_at: &str, record: &PreparedRecord) -> (r: SqlQuery)
    ensures
        r@ == record_row(dataset_id@, indexed_at@, record@),
{
    let mut args: Vec<SqlArg> = Vec::new();
    args.push(SqlArg::Text(dataset_id.to_string()));
    args.push(SqlArg::Text(record.record_id.clone()));
    args.push(SqlArg::Text(record.searchable_text.clone()));
    args.push(SqlArg::Text(record.payload_json.clone()));
    args.push(SqlArg::Text(record.display_json.clone()));
    args.push(SqlArg::Text(indexed_at.to_string()));
    args.push(SqlArg::Text(record.row_hash.clone()));
    let r = SqlQuery {
        sql: "INSERT INTO records VALUES (?1, ?2, ?3, ?4, ?5, ?6, ?7)".to_string(),
        args,
    };
    assert(r@.args =~= record_row(dataset_id@, indexed_at@, record@).args);
    r
}

fn insert_filter(record_id: &str, field: &String, value: &JsonValue) -> (r: SqlQuery)
    ensures
        r@ == filter_row(record_id@, field@, value@),
{
    let mut args: Vec<SqlArg> = Vec::new();
    args.push(SqlArg::Text(record_id.to_string()));
    args.push(SqlArg::Text(field.clone()));
    args.push(
        match value.scalar_to_string() {
            Some(t) => SqlArg::Text(t),
            None => SqlArg::Null,
        },
    );
    args.push(
        match value {
            JsonValue::Number(t) => SqlArg::Real(t.clone()),
            _ => SqlArg::Null,
        },
    );
    args.push(
        match value {
            JsonValue::Bool(b) => SqlArg::Integer(
                if *b {
                    1
                } else {
                    0
                },
            ),
            _ => SqlArg::Null,
        },
    );
    let r = SqlQuery {
        sql: "INSERT INTO filter_values(record_id, field_name, string_value, number_value, bool_value) VALUES (?1, ?2, ?3, ?4, ?5)".to_string(),
        args,
    };
    assert(r@.args =~= filter_row(record_id@, field@, value@).args);
    r
}

fn insert_chunk(chunk: &PreparedChunk) -> (r: SqlQuery)
    ensures
        r@ == chunk_row(chunk@),
{
    let mut args: Vec<SqlArg> = Vec::new();
    args.push(SqlArg::Text(chunk.chunk_id.clone()));
    args.push(SqlArg::Text(chunk.record_id.clone()));
    args.push(SqlArg::Integer(#[verifier::truncate] (chunk.chunk_index as i64)));
    args.push(SqlArg::Integer(#[verifier::truncate] (chunk.start_char as i64)));
    args.push(SqlArg::Integer(#[verifier::truncate] (chunk.end_char as i64)));
    args.push(SqlArg::Text(chunk.text.clone()));
    let r = SqlQuery {
        sql: "INSERT INTO chunks(chunk_id, record_id, chunk_index, start_char, end_char, chunk_text) VALUES (?1, ?2, ?3, ?4, ?5, ?6)".to_string(),
        args,
    };
    assert(r@.args =~= chunk_row(chunk@).args);
    r
}

/// The statements that fill an empty database with records, their filter values and their
/// chunks. `indexed_at` is written down as the time at which the records were indexed.
pub fn write_sqlite_index_at(
    dataset_id: &str,
    records: &Vec<PreparedRecord>,
    chunks: &Vec<PreparedChunk>,
    indexed_at: &str,
) -> (r: Vec<SqlQuery>)
    ensures
        sql::query_models(r@) == database_rows(
            dataset_id@,
            indexed_at@,
            schema::record_models(records@),
            chunking::chunk_models(chunks@),
        ),
{
    let ghost all = schema::record_models(records@);
    let mut out: Vec<SqlQuery> = Vec::new();
    let mut i: usize = 0;
    assert(sql::query_models(out@) =~= record_rows(dataset_id@, indexed_at@, all.take(0)));
    while i < records.len()
        invariant
            i <= records@.len(),
            all == schema::record_models(records@),
            sql::query_models(out@) == record_rows(dataset_id@, indexed_at@, all.take(i as int)),
        decreases records@.len() - i,
    {
        let ghost before = sql::query_models(out@);
        let record = &records[i];
        let row = insert_record(dataset_id, indexed_at, record);
        out.push(row);
        let ghost head = before.push(row@);
        assert(sql::query_models(out@) =~= head);
        let ghost rows = filter_rows(record@.record_id, record@.filters);
        let mut j: usize = 0;
        assert(sql::query_models(out@) =~= head + rows.take(0));
        while j < record.filters.len()
            invariant
                j <= record.filters@.len(),
                rows == filter_rows(record@.record_id, record@.filters),
                record@.filters.len() == record.filters@.len(),
                sql::query_models(out@) == head + rows.take(j as int),
            decreases record.filters@.len() - j,
        {
            let ghost so_far = sql::query_models(out@);
            let row = insert_filter(
                record.record_id.as_str(),
                record.filters.key_at(j),
                record.filters.value_at(j),
            );
            out.push(row);
            proof {
                assert(sql::query_models(out@) =~= so_far.push(row@));
                assert(rows[j as int] == row@);
                assert(sql::query_models(out@) =~= head + rows.take(j + 1));
            }
            j = j + 1;
        }
        proof {
            assert(rows.take(j as int) =~= rows);
            assert(all.take(i + 1).drop_last() =~= all.take(i as int));
            assert(all.take(i + 1).last() == record@);
            assert(sql::query_models(out@) =~= record_rows(
                dataset_id@,
                indexed_at@,
                all.take(i + 1),
            ));
        }
        i = i + 1;
    }
    assert(all.take(i as int) =~= all);
    let ghost head = sql::query_models(out@);
    let ghost rows = chunk_rows(chunking::chunk_models(chunks@));
    let mut k: usize = 0;
    assert(sql::query_models(out@) =~= head + rows.take(0));
    while k < chunks.len()
        invariant
            k <= chunks@.len(),
            rows == chunk_rows(chunking::chunk_models(chunks@)),
            sql::query_models(out@) == head + rows.take(k as int),
        decreases chunks@.len() - k,
    {
        let ghost so_far = sql::query_models(out@);
        let row = insert_chunk(&chunks[k]);
        out.push(row);
        proof {
            assert(sql::query_models(out@) =~= so_far.push(row@));
            assert(rows[k as int] == row@);
            assert(sql::query_models(out@) =~= head + rows.take(k + 1));
        }
        k = k + 1;
    }
    assert(rows.take(k as int) =~= rows);
    out
}

/// The statements that fill an empty database with records, their filter values and their
/// chunks, indexed now.
pub fn write_sqlite_index(
    dataset_id: &str,
    records: &Vec<PreparedRecord>,
    chunks: &Vec<PreparedChunk>,
) -> (r: Vec<SqlQuery>)
    ensures
        exists|indexed_at: Seq<char>|
            clock::is_time_stamp(indexed_at) && sql::query_models(r@) == #[trigger] database_rows(
                dataset_id@,
                indexed_at,
                schema::record_models(records@),
                chunking::chunk_models(chunks@),
            ),
{
    let now = time_stamp();
    write_sqlite_index_at(dataset_id, records, chunks, now.as_str())
}

/// A filter that asks for the value of a field asks for the very name and text under which
/// that value was written.
pub proof fn law_filter_asks_for_what_was_written(
    record_id: Seq<char>,
    field: Seq<char>,
    value: JsonModel,
)
    requires
        !value.is_nested(),
    ensures
        sql::clause_args(field, ExprModel::Eq(value)) == filter_row(
            record_id,
            field,
            value,
        ).args.subrange(1, 3),
{
    assert(sql::clause_args(field, ExprModel::Eq(value)) =~= filter_row(
        record_id,
        field,
        value,
    ).args.subrange(1, 3));
}

/// A filter that asks for one of several values asks for the very name and texts under which
/// each of them was written.
pub proof fn law_list_asks_for_what_was_written(
    record_id: Seq<char>,
    field: Seq<char>,
    values: Seq<JsonModel>,
    i: int,
)
    requires
        0 <= i < values.len(),
        !values[i].is_nested(),
    ensures
        ({
            let asked = sql::clause_args(field, ExprModel::In(values));
            let row = filter_row(record_id, field, values[i]);
            &&& asked.len() == values.len() + 1
            &&& asked[0] == row.args[1]
            &&& asked[i + 1] == row.args[2]
        }),
{
}

/// The place of the value that a bound is held against, among those that are written of a filter
/// value: the number for a number, else the text.
pub open spec fn bound_column(bound: JsonModel) -> int {
    if bound is Number {
        3
    } else {
        2
    }
}

/// A filter with bounds asks for the very name under which a value was written. It holds a bound
/// that is a number against the number that was written, any other against the text, and is given
/// for a bound just what is written of a value that is the same.
pub proof fn law_bounds_ask_for_what_was_written(
    record_id: Seq<char>,
    field: Seq<char>,
    low: JsonModel,
    high: JsonModel,
)
    requires
        !low.is_nested(),
        !high.is_nested(),
    ensures
        ({
            let from = filter_row(record_id, field, low);
            let to = filter_row(record_id, field, high);
            let least = from.args[bound_column(low)];
            let most = to.args[bound_column(high)];
            &&& sql::clause_args(field, ExprModel::Range(Some(low), None)) == seq![
                from.args[1],
                least,
            ]
            &&& sql::clause_args(field, ExprModel::Range(None, Some(high))) == seq![
                to.args[1],
                most,
            ]
            &&& sql::clause_args(field, ExprModel::Range(Some(low), Some(high))) == seq![
                from.args[1],
                least,
                most,
            ]
        }),
        low is Number ==> sql::bound_sql(
            Some(low),
            " AND fv.number_value >= ?"@,
            " AND fv.string_value >= ?"@,
        ) == " AND fv.number_value >= ?"@,
        low !is Number ==> sql::bound_sql(
            Some(low),
            " AND fv.number_value >= ?"@,
            " AND fv.string_value >= ?"@,
        ) == " AND fv.string_value >= ?"@,
        high is Number ==> sql::bound_sql(
            Some(high),
            " AND fv.number_value <= ?"@,
            " AND fv.string_value <= ?"@,
        ) == " AND fv.number_value <= ?"@,
        high !is Number ==> sql::bound_sql(
            Some(high),
            " AND fv.number_value <= ?"@,
            " AND fv.string_value <= ?"@,
        ) == " AND fv.string_value <= ?"@,
{
    let from = filter_row(record_id, field, low);
    let to = filter_row(record_id, field, high);
    assert(sql::clause_args(field, ExprModel::Range(Some(low), None)) =~= seq![
        from.args[1],
        from.args[bound_column(low)],
    ]);
    assert(sql::clause_args(field, ExprModel::Range(None, Some(high))) =~= seq![
        to.args[1],
        to.args[bound_column(high)],
    ]);
    assert(sql::clause_args(field, ExprModel::Range(Some(low), Some(high))) =~= seq![
        from.args[1],
        from.args[bound_column(low)],
        to.args[bound_column(high)],
    ]);
}

proof fn lemma_record_is_written(
    dataset_id: Seq<char>,
    indexed_at: Seq<char>,
    records: Seq<RecordModel>,
    i: int,
)
    requires
        0 <= i < records.len(),
    ensures
        ({
            let rows = record_rows(dataset_id, indexed_at, records);
            &&& rows.contains(record_row(dataset_id, indexed_at, records[i]))
            &&& forall|j: int|
                0 <= j < records[i].filters.len() ==> rows.contains(
                    filter_row(
                        records[i].record_id,
                        (#[trigger] records[i].filters[j]).0,
                        records[i].filters[j].1,
                    ),
                )
        }),
    decreases records.len(),
{
    let rows = record_rows(dataset_id, indexed_at, records);
    let shorter = records.drop_last();
    let before = record_rows(dataset_id, indexed_at, shorter);
    let own = record_row(dataset_id, indexed_at, records[i]);
    if i < shorter.len() {
        assert(shorter[i] == records[i]);
        lemma_record_is_written(dataset_id, indexed_at, shorter, i);
        let k = choose|k: int| 0 <= k < before.len() && before[k] == own;
        assert(rows[k] == own);
        assert forall|j: int| 0 <= j < records[i].filters.len() implies rows.contains(
            filter_row(
                records[i].record_id,
                (#[trigger] records[i].filters[j]).0,
                records[i].filters[j].1,
            ),
        ) by {
            let row = filter_row(
                records[i].record_id,
                shorter[i].filters[j].0,
                shorter[i].filters[j].1,
            );
            assert(before.contains(row));
            let k = choose|k: int| 0 <= k < before.len() && before[k] == row;
            assert(rows[k] == row);
        }
    } else {
        assert(rows[before.len() as int] == own);
        let values = filter_rows(records[i].record_id, records[i].filters);
        assert forall|j: int| 0 <= j < records[i].filters.len() implies rows.contains(
            filter_row(
                records[i].record_id,
                (#[trigger] records[i].filters[j]).0,
                records[i].filters[j].1,
            ),
        ) by {
            assert(rows[before.len() + 1 + j] == values[j]);
        }
    }
}

/// Nothing of a dataset is left out of the database: every record is written under its dataset and
/// its id, with its text, its payload, what it displays and its hash; every filter value of every
/// record under the record and its field; and every chunk under its own id and its record, with its
/// number, its place and its text.
pub proof fn law_everything_is_written(
    dataset_id: Seq<char>,
    indexed_at: Seq<char>,
    records: Seq<RecordModel>,
    chunks: Seq<ChunkModel>,
)
    ensures
        ({
            let rows = database_rows(dataset_id, indexed_at, records, chunks);
            &&& forall|i: int|
                0 <= i < records.len() ==> has_row(
                    rows,
                    seq![
                        ArgModel::Text(dataset_id),
                        ArgModel::Text((#[trigger] records[i]).record_id),
                        ArgModel::Text(records[i].searchable_text),
                        ArgModel::Text(records[i].payload_json),
                        ArgModel::Text(records[i].display_json),
                        ArgModel::Text(indexed_at),
                        ArgModel::Text(records[i].row_hash),
                    ],
                )
            &&& forall|i: int, j: int|
                0 <= i < records.len() && 0 <= j < records[i].filters.len() ==> {
                    let (field, value) = #[trigger] records[i].filters[j];
                    has_row(
                        rows,
                        seq![
                            ArgModel::Text(records[i].record_id),
                            ArgModel::Text(field),
                            match value.scalar_text() {
                                Some(t) => ArgModel::Text(t),
                                None => ArgModel::Null,
                            },
                            match value {
                                JsonModel::Number(t) => ArgModel::Real(t),
                                _ => ArgModel::Null,
                            },
                            match value {
                                JsonModel::Bool(b) => if b {
                                    ArgModel::Integer(1)
                                } else {
                                    ArgModel::Integer(0)
                                },
                                _ => ArgModel::Null,
                            },
                        ],
                    )
                }
            &&& forall|k: int|
                0 <= k < chunks.len() ==> has_row(
                    rows,
                    seq![
                        ArgModel::Text((#[trigger] chunks[k]).chunk_id),
                        ArgModel::Text(chunks[k].record_id),
                        ArgModel::Integer(chunks[k].chunk_index as i64),
                        ArgModel::Integer(chunks[k].start as i64),
                        ArgModel::Integer(chunks[k].end as i64),
                        ArgModel::Text(chunks[k].text),
                    ],
                )
        }),
{
    let rows = database_rows(dataset_id, indexed_at, records, chunks);
    let head = record_rows(dataset_id, indexed_at, records);
    let tail = chunk_rows(chunks);
    assert forall|row: QueryModel| head.contains(row) implies has_row(rows, row.args) by {
        let k = choose|k: int| 0 <= k < head.len() && head[k] == row;
        assert(rows[k] == row);
    }
    assert forall|i: int| 0 <= i < records.len() implies has_row(
        rows,
        seq![
            ArgModel::Text(dataset_id),
            ArgModel::Text((#[trigger] records[i]).record_id),
            ArgModel::Text(records[i].searchable_text),
            ArgModel::Text(records[i].payload_json),
            ArgModel::Text(records[i].display_json),
            ArgModel::Text(indexed_at),
            ArgModel::Text(records[i].row_hash),
        ],
    ) by {
        lemma_record_is_written(dataset_id, indexed_at, records, i);
        assert(has_row(rows, record_row(dataset_id, indexed_at, records[i]).args));
    }
    assert forall|i: int, j: int| 0 <= i < records.len() && 0 <= j < records[i].filters.len() implies {
        let (field, value) = #[trigger] records[i].filters[j];
        has_row(
            rows,
            seq![
                ArgModel::Text(records[i].record_id),
                ArgModel::Text(field),
                match value.scalar_text() {
                    Some(t) => ArgModel::Text(t),
                    None => ArgModel::Null,
                },
                match value {
                    JsonModel::Number(t) => ArgModel::Real(t),
                    _ => ArgModel::Null,
                },
                match value {
                    JsonModel::Bool(b) => if b {
                        ArgModel::Integer(1)
                    } else {
                        ArgModel::Integer(0)
                    },
                    _ => ArgModel::Null,
                },
            ],
        )
    } by {
        let (field, value) = records[i].filters[j];
        lemma_record_is_written(dataset_id, indexed_at, records, i);
        let row = filter_row(records[i].record_id, field, value);
        assert(row == filter_row(
            records[i].record_id,
            records[i].filters[j].0,
            records[i].filters[j].1,
        ));
        assert(has_row(rows, row.args));
        assert(row.args =~= seq![
            ArgModel::Text(records[i].record_id),
            ArgModel::Text(field),
            match value.scalar_text() {
                Some(t) => ArgModel::Text(t),
                None => ArgModel::Null,
            },
            match value {
                JsonModel::Number(t) => ArgModel::Real(t),
                _ => ArgModel::Null,
            },
            match value {
                JsonModel::Bool(b) => if b {
                    ArgModel::Integer(1)
                } else {
                    ArgModel::Integer(0)
                },
                _ => ArgModel::Null,
            },
        ]);
    }
    assert forall|k: int| 0 <= k < chunks.len() implies has_row(
        rows,
        seq![
            ArgModel::Text((#[trigger] chunks[k]).chunk_id),
            ArgModel::Text(chunks[k].record_id),
            ArgModel::Integer(chunks[k].chunk_index as i64),
            ArgModel::Integer(chunks[k].start as i64),
            ArgModel::Integer(chunks[k].end as i64),
            ArgModel::Text(chunks[k].text),
        ],
    ) by {
        assert(rows[head.len() + k] == tail[k]);
    }
}

/// Whether a row with the given values is written.
pub open spec fn has_row(rows: Seq<QueryModel>, values: Seq<ArgModel>) -> bool {
    exists|k: int| 0 <= k < rows.len() && (#[trigger] rows[k]).args == values
}

} // verus!
