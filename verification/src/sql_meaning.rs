//! What the conditions of the statements mean, read from their text.
use vstd::prelude::*;
use vstd::string::*;

use crate::database;
use crate::json::JsonModel;
use crate::protocol::ExprModel;
use crate::sql;
use crate::sql::ArgModel;
use crate::text;

verus! {

/// Whether a value comes no later than another, both texts or both numbers; numbers are ordered
/// as `num_le` says.
pub open spec fn is_at_most(
    a: ArgModel,
    b: ArgModel,
    num_le: spec_fn(Seq<char>, Seq<char>) -> bool,
) -> bool {
    match (a, b) {
        (ArgModel::Text(x), ArgModel::Text(y)) => x == y || text::text_lt(x, y),
        (ArgModel::Real(x), ArgModel::Real(y)) => num_le(x, y),
        _ => false,
    }
}

/// Whether a value comes before another.
pub open spec fn is_below(
    a: ArgModel,
    b: ArgModel,
    num_le: spec_fn(Seq<char>, Seq<char>) -> bool,
) -> bool {
    is_at_most(a, b, num_le) && !is_at_most(b, a, num_le)
}

/// Whether a value is another.
pub open spec fn is_equal(
    a: ArgModel,
    b: ArgModel,
    num_le: spec_fn(Seq<char>, Seq<char>) -> bool,
) -> bool {
    match (a, b) {
        (ArgModel::Text(x), ArgModel::Text(y)) => x == y,
        (ArgModel::Real(x), ArgModel::Real(y)) => num_le(x, y) && num_le(y, x),
        _ => false,
    }
}

/// Which column of a row of filter values a condition is about: the columns are the id of the
/// record, the name of the field, the text, the number and the truth value.
pub open spec fn column_of(condition: Seq<char>) -> Option<int> {
    if condition.len() < 21 {
        None
    } else if condition.take(21) == " AND fv.string_value "@ {
        Some(2)
    } else if condition.take(21) == " AND fv.number_value "@ {
        Some(3)
    } else {
        None
    }
}

/// Whether a condition goes on in the given way after its column.
pub open spec fn compares(condition: Seq<char>, sign: Seq<char>) -> bool {
    condition.len() >= 21 + sign.len() && condition.subrange(21, 21 + sign.len() as int) == sign
}

/// Whether the conditions on a row of filter values hold, given the values that are bound to
/// their marks.
pub open spec fn conditions_hold(
    conditions: Seq<char>,
    values: Seq<ArgModel>,
    row: Seq<ArgModel>,
    num_le: spec_fn(Seq<char>, Seq<char>) -> bool,
) -> bool
    decreases values.len(),
{
    if conditions.len() == 0 || values.len() == 0 {
        conditions.len() == 0 && values.len() == 0
    } else {
        match column_of(conditions) {
            None => false,
            Some(c) => if compares(conditions, ">= ?"@) {
                is_at_most(values[0], row[c], num_le) && conditions_hold(
                    conditions.skip(25),
                    values.skip(1),
                    row,
                    num_le,
                )
            } else if compares(conditions, "<= ?"@) {
                is_at_most(row[c], values[0], num_le) && conditions_hold(
                    conditions.skip(25),
                    values.skip(1),
                    row,
                    num_le,
                )
            } else if compares(conditions, "> ?"@) {
                is_below(values[0], row[c], num_le) && conditions_hold(
                    conditions.skip(24),
                    values.skip(1),
                    row,
                    num_le,
                )
            } else if compares(conditions, "< ?"@) {
                is_below(row[c], values[0], num_le) && conditions_hold(
                    conditions.skip(24),
                    values.skip(1),
                    row,
                    num_le,
                )
            } else if compares(conditions, "= ?"@) {
                is_equal(values[0], row[c], num_le) && conditions_hold(
                    conditions.skip(24),
                    values.skip(1),
                    row,
                    num_le,
                )
            } else if compares(conditions, "IN ("@) {
                &&& conditions.skip(25) == sql::mark_list(values.len()) + ")"@
                &&& exists|i: int|
                    0 <= i < values.len() && is_equal(#[trigger] values[i], row[c], num_le)
            } else {
                false
            },
        }
    }
}

/// How a condition on records that looks for a filter value begins: the value is one of the
/// record, and of the field whose name is bound first.
pub open spec fn search_head() -> Seq<char> {
    " AND EXISTS (SELECT 1 FROM filter_values fv WHERE fv.record_id = r.record_id AND fv.field_name = ?"@
}

/// Whether a row of filter values is one of the record and the field, and meets the conditions.
pub open spec fn row_is_found(
    row: Seq<ArgModel>,
    record_id: Seq<char>,
    conditions: Seq<char>,
    values: Seq<ArgModel>,
    num_le: spec_fn(Seq<char>, Seq<char>) -> bool,
) -> bool {
    &&& values.len() > 0
    &&& row[0] == ArgModel::Text(record_id)
    &&& row[1] == values[0]
    &&& conditions_hold(conditions, values.skip(1), row, num_le)
}

/// Whether a condition on records holds of a record, given the values that are bound to its marks
/// and all rows of filter values.
pub open spec fn clause_holds(
    clause: Seq<char>,
    values: Seq<ArgModel>,
    record_id: Seq<char>,
    rows: Seq<Seq<ArgModel>>,
    num_le: spec_fn(Seq<char>, Seq<char>) -> bool,
) -> bool {
    let n = search_head().len() as int;
    if clause.len() == 0 {
        values.len() == 0
    } else {
        &&& clause.len() > n
        &&& clause.take(n) == search_head()
        &&& clause.last() == ')'
        &&& exists|i: int|
            0 <= i < rows.len() && row_is_found(
                #[trigger] rows[i],
                record_id,
                clause.subrange(n, clause.len() - 1),
                values,
                num_le,
            )
    }
}

/// A filter value that was written: the id of its record, the name of its field and the value.
pub struct Written {
    pub record_id: Seq<char>,
    pub field: Seq<char>,
    pub value: JsonModel,
}

/// The rows of filter values that were written.
pub open spec fn written_rows(written: Seq<Written>) -> Seq<Seq<ArgModel>> {
    Seq::new(
        written.len(),
        |i: int|
            database::filter_row(
                written[i].record_id,
                written[i].field,
                written[i].value,
            ).args,
    )
}

/// Whether a value is not below a bound: by number where the bound is a number, else by text.
pub open spec fn is_from(
    value: JsonModel,
    bound: JsonModel,
    num_le: spec_fn(Seq<char>, Seq<char>) -> bool,
) -> bool {
    match bound {
        JsonModel::Number(b) => value matches JsonModel::Number(v) && num_le(b, v),
        _ => value.scalar_text() matches Some(v) && (sql::text_or_empty(bound) == v
            || text::text_lt(sql::text_or_empty(bound), v)),
    }
}

/// Whether a value is not above a bound: by number where the bound is a number, else by text.
pub open spec fn is_up_to(
    value: JsonModel,
    bound: JsonModel,
    num_le: spec_fn(Seq<char>, Seq<char>) -> bool,
) -> bool {
    match bound {
        JsonModel::Number(b) => value matches JsonModel::Number(v) && num_le(v, b),
        _ => value.scalar_text() matches Some(v) && (v == sql::text_or_empty(bound)
            || text::text_lt(v, sql::text_or_empty(bound))),
    }
}

/// Whether a value is what a filter asks for: the value that it names, one of those that it
/// lists, or any from its lower up to its upper bound, both of them allowed.
pub open spec fn is_wanted(
    value: JsonModel,
    expr: ExprModel,
    num_le: spec_fn(Seq<char>, Seq<char>) -> bool,
) -> bool {
    match expr {
        ExprModel::Eq(wanted) => value.scalar_text() == Some(sql::text_or_empty(wanted)),
        ExprModel::In(wanted) => exists|i: int|
            0 <= i < wanted.len() && value.scalar_text() == Some(
                sql::text_or_empty(#[trigger] wanted[i]),
            ),
        ExprModel::Range(gte, lte) => {
            &&& gte matches Some(bound) ==> is_from(value, bound, num_le)
            &&& lte matches Some(bound) ==> is_up_to(value, bound, num_le)
        },
    }
}

/// Whether the record has a value of the field that the filter asks for.
pub open spec fn has_wanted(
    written: Seq<Written>,
    record_id: Seq<char>,
    field: Seq<char>,
    expr: ExprModel,
    num_le: spec_fn(Seq<char>, Seq<char>) -> bool,
) -> bool {
    exists|i: int|
        0 <= i < written.len() && (#[trigger] written[i]).record_id == record_id
            && written[i].field == field && is_wanted(written[i].value, expr, num_le)
}

/// The conditions on a filter value that a filter stands for.
spec fn inner(expr: ExprModel) -> Seq<char> {
    match expr {
        ExprModel::Eq(_) => " AND fv.string_value = ?"@,
        ExprModel::In(values) => " AND fv.string_value IN ("@ + sql::mark_list(values.len())
            + ")"@,
        ExprModel::Range(gte, lte) => sql::bound_sql(
            gte,
            " AND fv.number_value >= ?"@,
            " AND fv.string_value >= ?"@,
        ) + sql::bound_sql(lte, " AND fv.number_value <= ?"@, " AND fv.string_value <= ?"@),
    }
}

proof fn lemma_eq_text()
    ensures
        " AND EXISTS (SELECT 1 FROM filter_values fv WHERE fv.record_id = r.record_id AND fv.field_name = ? AND fv.string_value = ?)"@
            == search_head() + " AND fv.string_value = ?"@ + ")"@,
{
    reveal_strlit(" AND EXISTS (SELECT 1 FROM filter_values fv WHERE fv.record_id = r.record_id AND fv.field_name = ? AND fv.string_value = ?)");
    reveal_strlit(" AND EXISTS (SELECT 1 FROM filter_values fv WHERE fv.record_id = r.record_id AND fv.field_name = ?");
    reveal_strlit(" AND fv.string_value = ?");
    reveal_strlit(")");
    assert(" AND EXISTS (SELECT 1 FROM filter_values fv WHERE fv.record_id = r.record_id AND fv.field_name = ? AND fv.string_value = ?)"@
        =~= search_head() + " AND fv.string_value = ?"@ + ")"@);
}

proof fn lemma_in_text()
    ensures
        " AND EXISTS (SELECT 1 FROM filter_values fv WHERE fv.record_id = r.record_id AND fv.field_name = ? AND fv.string_value IN ("@
            == search_head() + " AND fv.string_value IN ("@,
        "))"@ == ")"@ + ")"@,
{
    reveal_strlit(" AND EXISTS (SELECT 1 FROM filter_values fv WHERE fv.record_id = r.record_id AND fv.field_name = ? AND fv.string_value IN (");
    reveal_strlit(" AND EXISTS (SELECT 1 FROM filter_values fv WHERE fv.record_id = r.record_id AND fv.field_name = ?");
    reveal_strlit(" AND fv.string_value IN (");
    reveal_strlit(")");
    reveal_strlit("))");
    assert(" AND EXISTS (SELECT 1 FROM filter_values fv WHERE fv.record_id = r.record_id AND fv.field_name = ? AND fv.string_value IN ("@
        =~= search_head() + " AND fv.string_value IN ("@);
    assert("))"@ =~= ")"@ + ")"@);
}

proof fn lemma_signs()
    ensures
        ">= ?"@ == seq!['>', '=', ' ', '?'],
        "<= ?"@ == seq!['<', '=', ' ', '?'],
        "> ?"@ == seq!['>', ' ', '?'],
        "< ?"@ == seq!['<', ' ', '?'],
        "= ?"@ == seq!['=', ' ', '?'],
        "IN ("@ == seq!['I', 'N', ' ', '('],
        ")"@ == seq![')'],
{
    reveal_strlit(">= ?");
    reveal_strlit("<= ?");
    reveal_strlit("> ?");
    reveal_strlit("< ?");
    reveal_strlit("= ?");
    reveal_strlit("IN (");
    reveal_strlit(")");
    assert(">= ?"@ =~= seq!['>', '=', ' ', '?']);
    assert("<= ?"@ =~= seq!['<', '=', ' ', '?']);
    assert("> ?"@ =~= seq!['>', ' ', '?']);
    assert("< ?"@ =~= seq!['<', ' ', '?']);
    assert("= ?"@ =~= seq!['=', ' ', '?']);
    assert("IN ("@ =~= seq!['I', 'N', ' ', '(']);
    assert(")"@ =~= seq![')']);
}

proof fn lemma_columns()
    ensures
        " AND fv.string_value "@.len() == 21,
        " AND fv.number_value "@.len() == 21,
        " AND fv.string_value "@ != " AND fv.number_value "@,
        " AND fv.number_value >= ?"@ == " AND fv.number_value "@ + ">= ?"@,
        " AND fv.string_value >= ?"@ == " AND fv.string_value "@ + ">= ?"@,
        " AND fv.number_value <= ?"@ == " AND fv.number_value "@ + "<= ?"@,
        " AND fv.string_value <= ?"@ == " AND fv.string_value "@ + "<= ?"@,
        " AND fv.string_value = ?"@ == " AND fv.string_value "@ + "= ?"@,
        " AND fv.string_value IN ("@ == " AND fv.string_value "@ + "IN ("@,
{
    lemma_signs();
    reveal_strlit(" AND fv.string_value ");
    reveal_strlit(" AND fv.number_value ");
    assert(" AND fv.string_value "@[8] != " AND fv.number_value "@[8]);
    assert(" AND fv.number_value >= ?"@ =~= " AND fv.number_value "@ + ">= ?"@) by {
        reveal_strlit(" AND fv.number_value >= ?");
    }
    assert(" AND fv.string_value >= ?"@ =~= " AND fv.string_value "@ + ">= ?"@) by {
        reveal_strlit(" AND fv.string_value >= ?");
    }
    assert(" AND fv.number_value <= ?"@ =~= " AND fv.number_value "@ + "<= ?"@) by {
        reveal_strlit(" AND fv.number_value <= ?");
    }
    assert(" AND fv.string_value <= ?"@ =~= " AND fv.string_value "@ + "<= ?"@) by {
        reveal_strlit(" AND fv.string_value <= ?");
    }
    assert(" AND fv.string_value = ?"@ =~= " AND fv.string_value "@ + "= ?"@) by {
        reveal_strlit(" AND fv.string_value = ?");
    }
    assert(" AND fv.string_value IN ("@ =~= " AND fv.string_value "@ + "IN ("@) by {
        reveal_strlit(" AND fv.string_value IN (");
    }
}

/// A condition with a sign on a column, and what stands after it.
proof fn lemma_condition(column: Seq<char>, sign: Seq<char>, rest: Seq<char>)
    requires
        column == " AND fv.string_value "@ || column == " AND fv.number_value "@,
        sign == ">= ?"@ || sign == "<= ?"@ || sign == "= ?"@ || sign == "IN ("@,
    ensures
        ({
            let whole = column + sign + rest;
            &&& whole.len() > 0
            &&& column_of(whole) == Some(
                if column == " AND fv.string_value "@ {
                    2int
                } else {
                    3int
                },
            )
            &&& compares(whole, sign)
            &&& forall|other: Seq<char>|
                other != sign && (other == ">= ?"@ || other == "<= ?"@ || other == "> ?"@ || other
                    == "< ?"@ || other == "= ?"@ || other == "IN ("@) ==> !#[trigger] compares(
                    whole,
                    other,
                )
            &&& whole.skip(21 + sign.len() as int) == rest
        }),
{
    let whole = column + sign + rest;
    lemma_signs();
    lemma_columns();
    assert(whole.take(21) =~= column);
    assert(whole.subrange(21, 21 + sign.len() as int) =~= sign);
    assert(whole.skip(21 + sign.len() as int) =~= rest);
    assert forall|other: Seq<char>|
        other != sign && (other == ">= ?"@ || other == "<= ?"@ || other == "> ?"@ || other
            == "< ?"@ || other == "= ?"@ || other == "IN ("@) implies !#[trigger] compares(
        whole,
        other,
    ) by {
        if compares(whole, other) {
            let seen = whole.subrange(21, 21 + other.len() as int);
            assert(seen[0] == whole[21] && seen[0] == other[0]);
            assert(seen[1] == whole[22] && seen[1] == other[1]);
            assert(whole[21] == sign[0]);
            assert(whole[22] == sign[1]);
        }
    }
}

/// What a lower bound, and what stands after it, says of a written value.
proof fn lemma_lower_bound(
    bound: Option<JsonModel>,
    rest: Seq<char>,
    values: Seq<ArgModel>,
    w: Written,
    num_le: spec_fn(Seq<char>, Seq<char>) -> bool,
)
    ensures
        ({
            let row = database::filter_row(w.record_id, w.field, w.value).args;
            conditions_hold(
                sql::bound_sql(bound, " AND fv.number_value >= ?"@, " AND fv.string_value >= ?"@)
                    + rest,
                sql::bound_args(bound) + values,
                row,
                num_le,
            ) <==> (bound matches Some(b) ==> is_from(w.value, b, num_le)) && conditions_hold(
                rest,
                values,
                row,
                num_le,
            )
        }),
{
    let all = sql::bound_args(bound) + values;
    lemma_columns();
    match bound {
        None => {
            assert(Seq::<char>::empty() + rest =~= rest);
            assert(all =~= values);
        },
        Some(JsonModel::Number(_)) => {
            lemma_condition(" AND fv.number_value "@, ">= ?"@, rest);
            lemma_signs();
            assert(all.skip(1) =~= values);
        },
        Some(_) => {
            lemma_condition(" AND fv.string_value "@, ">= ?"@, rest);
            lemma_signs();
            assert(all.skip(1) =~= values);
        },
    }
}

/// What an upper bound, and what stands after it, says of a written value.
proof fn lemma_upper_bound(
    bound: Option<JsonModel>,
    rest: Seq<char>,
    values: Seq<ArgModel>,
    w: Written,
    num_le: spec_fn(Seq<char>, Seq<char>) -> bool,
)
    ensures
        ({
            let row = database::filter_row(w.record_id, w.field, w.value).args;
            conditions_hold(
                sql::bound_sql(bound, " AND fv.number_value <= ?"@, " AND fv.string_value <= ?"@)
                    + rest,
                sql::bound_args(bound) + values,
                row,
                num_le,
            ) <==> (bound matches Some(b) ==> is_up_to(w.value, b, num_le)) && conditions_hold(
                rest,
                values,
                row,
                num_le,
            )
        }),
{
    let all = sql::bound_args(bound) + values;
    lemma_columns();
    match bound {
        None => {
            assert(Seq::<char>::empty() + rest =~= rest);
            assert(all =~= values);
        },
        Some(JsonModel::Number(_)) => {
            lemma_condition(" AND fv.number_value "@, "<= ?"@, rest);
            lemma_signs();
            assert(all.skip(1) =~= values);
        },
        Some(_) => {
            lemma_condition(" AND fv.string_value "@, "<= ?"@, rest);
            lemma_signs();
            assert(all.skip(1) =~= values);
        },
    }
}

proof fn lemma_inner(
    name: Seq<char>,
    expr: ExprModel,
    w: Written,
    num_le: spec_fn(Seq<char>, Seq<char>) -> bool,
)
    requires
        expr matches ExprModel::In(values) ==> values.len() > 0,
    ensures
        conditions_hold(
            inner(expr),
            sql::clause_args(name, expr).skip(1),
            database::filter_row(w.record_id, w.field, w.value).args,
            num_le,
        ) <==> is_wanted(w.value, expr, num_le),
{
    let row = database::filter_row(w.record_id, w.field, w.value).args;
    let args = sql::clause_args(name, expr).skip(1);
    let none = Seq::<char>::empty();
    lemma_columns();
    lemma_signs();
    match expr {
        ExprModel::Eq(wanted) => {
            lemma_condition(" AND fv.string_value "@, "= ?"@, none);
            assert(inner(expr) =~= " AND fv.string_value "@ + "= ?"@ + none);
            assert(args =~= seq![ArgModel::Text(sql::text_or_empty(wanted))]);
            assert(args.skip(1) =~= Seq::empty());
            assert(conditions_hold(none, args.skip(1), row, num_le));
        },
        ExprModel::In(wanted) => {
            let tail = sql::mark_list(wanted.len()) + ")"@;
            lemma_condition(" AND fv.string_value "@, "IN ("@, tail);
            assert(inner(expr) =~= " AND fv.string_value "@ + "IN ("@ + tail);
            assert(args.len() == wanted.len());
            assert forall|i: int| 0 <= i < wanted.len() implies args[i] == ArgModel::Text(
                sql::text_or_empty(#[trigger] wanted[i]),
            ) by {}
            if is_wanted(w.value, expr, num_le) {
                let i = choose|i: int|
                    0 <= i < wanted.len() && w.value.scalar_text() == Some(
                        sql::text_or_empty(#[trigger] wanted[i]),
                    );
                assert(is_equal(args[i], row[2], num_le));
            }
            if exists|i: int| 0 <= i < args.len() && is_equal(#[trigger] args[i], row[2], num_le) {
                let i = choose|i: int|
                    0 <= i < args.len() && is_equal(#[trigger] args[i], row[2], num_le);
                assert(w.value.scalar_text() == Some(sql::text_or_empty(wanted[i])));
            }
        },
        ExprModel::Range(gte, lte) => {
            let high = sql::bound_sql(
                lte,
                " AND fv.number_value <= ?"@,
                " AND fv.string_value <= ?"@,
            );
            let empty = Seq::<ArgModel>::empty();
            assert(args =~= sql::bound_args(gte) + sql::bound_args(lte));
            assert(high + none =~= high);
            assert(sql::bound_args(lte) + empty =~= sql::bound_args(lte));
            lemma_lower_bound(gte, high, sql::bound_args(lte), w, num_le);
            lemma_upper_bound(lte, none, empty, w, num_le);
            assert(conditions_hold(none, empty, row, num_le));
        },
    }
}

proof fn lemma_clause_text(expr: ExprModel)
    requires
        expr matches ExprModel::In(values) ==> values.len() > 0,
    ensures
        sql::clause_sql(expr) == search_head() + inner(expr) + ")"@,
{
    match expr {
        ExprModel::Eq(_) => {
            lemma_eq_text();
        },
        ExprModel::In(values) => {
            lemma_in_text();
        },
        ExprModel::Range(gte, lte) => {},
    }
    assert(sql::clause_sql(expr) =~= search_head() + inner(expr) + ")"@);
}

/// The condition that a filter stands for holds of a record exactly where a value that the filter
/// asks for was written of the record under the field; a filter that lists no values always holds.
/// A filter with bounds asks for the values from the lower up to the upper bound, both of them
/// allowed, by number where the bound is a number and else by text.
pub proof fn law_filter_means_what_it_says(
    name: Seq<char>,
    expr: ExprModel,
    record_id: Seq<char>,
    written: Seq<Written>,
    num_le: spec_fn(Seq<char>, Seq<char>) -> bool,
)
    ensures
        clause_holds(
            sql::clause_sql(expr),
            sql::clause_args(name, expr),
            record_id,
            written_rows(written),
            num_le,
        ) <==> (expr matches ExprModel::In(values) && values.len() == 0) || has_wanted(
            written,
            record_id,
            name,
            expr,
            num_le,
        ),
{
    let clause = sql::clause_sql(expr);
    let values = sql::clause_args(name, expr);
    let rows = written_rows(written);
    if expr matches ExprModel::In(listed) && listed.len() == 0 {
    } else {
        let n = search_head().len() as int;
        lemma_clause_text(expr);
        lemma_signs();
        assert(clause.take(n) =~= search_head());
        assert(clause.subrange(n, clause.len() - 1) =~= inner(expr));
        assert(values[0] == ArgModel::Text(name));
        assert forall|i: int| 0 <= i < written.len() implies (row_is_found(
            #[trigger] rows[i],
            record_id,
            inner(expr),
            values,
            num_le,
        ) <==> written[i].record_id == record_id && written[i].field == name && is_wanted(
            written[i].value,
            expr,
            num_le,
        )) by {
            lemma_inner(name, expr, written[i], num_le);
        }
        if has_wanted(written, record_id, name, expr, num_le) {
            let i = choose|i: int|
                0 <= i < written.len() && (#[trigger] written[i]).record_id == record_id
                    && written[i].field == name && is_wanted(written[i].value, expr, num_le);
            assert(row_is_found(rows[i], record_id, inner(expr), values, num_le));
        }
        if clause_holds(clause, values, record_id, rows, num_le) {
            let i = choose|i: int|
                0 <= i < rows.len() && row_is_found(
                    #[trigger] rows[i],
                    record_id,
                    clause.subrange(n, clause.len() - 1),
                    values,
                    num_le,
                );
            assert(written[i].record_id == record_id);
        }
    }
}

/// A filter whose two bounds are the value of a record's field holds of that record, and so does
/// one that asks for the value, or for one of several among which it is.
pub proof fn law_filter_takes_its_own_value(
    written: Seq<Written>,
    i: int,
    others: Seq<JsonModel>,
    num_le: spec_fn(Seq<char>, Seq<char>) -> bool,
)
    requires
        0 <= i < written.len(),
        !written[i].value.is_nested(),
        forall|n: Seq<char>| #[trigger] num_le(n, n),
    ensures
        ({
            let w = written[i];
            let v = w.value;
            let rows = written_rows(written);
            &&& clause_holds(
                sql::clause_sql(ExprModel::Range(Some(v), Some(v))),
                sql::clause_args(w.field, ExprModel::Range(Some(v), Some(v))),
                w.record_id,
                rows,
                num_le,
            )
            &&& clause_holds(
                sql::clause_sql(ExprModel::Eq(v)),
                sql::clause_args(w.field, ExprModel::Eq(v)),
                w.record_id,
                rows,
                num_le,
            )
            &&& others.contains(v) ==> clause_holds(
                sql::clause_sql(ExprModel::In(others)),
                sql::clause_args(w.field, ExprModel::In(others)),
                w.record_id,
                rows,
                num_le,
            )
        }),
{
    let w = written[i];
    let v = w.value;
    let range = ExprModel::Range(Some(v), Some(v));
    law_filter_means_what_it_says(w.field, range, w.record_id, written, num_le);
    law_filter_means_what_it_says(w.field, ExprModel::Eq(v), w.record_id, written, num_le);
    law_filter_means_what_it_says(w.field, ExprModel::In(others), w.record_id, written, num_le);
    assert(is_wanted(v, range, num_le));
    assert(is_wanted(v, ExprModel::Eq(v), num_le));
    if others.contains(v) {
        let k = choose|k: int| 0 <= k < others.len() && others[k] == v;
        assert(v.scalar_text() == Some(sql::text_or_empty(others[k])));
        assert(is_wanted(v, ExprModel::In(others), num_le));
    }
}

/// Several filters stand for their conditions one after the other: none is left out, and each
/// keeps its own values.
pub proof fn law_every_filter_is_a_condition(filters: Seq<(Seq<char>, ExprModel)>, i: int)
    requires
        0 <= i < filters.len(),
    ensures
        sql::filter_sql(filters) == sql::filter_sql(filters.take(i)) + sql::clause_sql(
            filters[i].1,
        ) + sql::filter_sql(filters.skip(i + 1)),
        sql::filter_args(filters) == sql::filter_args(filters.take(i)) + sql::clause_args(
            filters[i].0,
            filters[i].1,
        ) + sql::filter_args(filters.skip(i + 1)),
        sql::filter_sql(Seq::empty()).len() == 0,
        sql::filter_args(Seq::empty()).len() == 0,
    decreases filters.len(),
{
    let front = filters.drop_last();
    let rest = filters.skip(i + 1);
    if i < filters.len() - 1 {
        law_every_filter_is_a_condition(front, i);
        assert(front.take(i) =~= filters.take(i));
        assert(rest.drop_last() =~= front.skip(i + 1));
        assert(rest.last() == filters.last());
    } else {
        assert(front =~= filters.take(i));
        assert(rest =~= Seq::empty());
    }
    assert(sql::filter_sql(filters) =~= sql::filter_sql(filters.take(i)) + sql::clause_sql(
        filters[i].1,
    ) + sql::filter_sql(rest));
    assert(sql::filter_args(filters) =~= sql::filter_args(filters.take(i)) + sql::clause_args(
        filters[i].0,
        filters[i].1,
    ) + sql::filter_args(rest));
}

/// The statements that fetch records ask for just the given ids, and add to that the conditions of
/// the filters with their values: filters never change what else a statement says.
pub proof fn law_fetched_records_meet_the_filters(
    record_id: Seq<char>,
    ids: Seq<Seq<char>>,
    filters: Seq<(Seq<char>, ExprModel)>,
)
    ensures
        ({
            let none = Seq::<(Seq<char>, ExprModel)>::empty();
            &&& sql::record_query(record_id, filters).sql == sql::record_query(record_id, none).sql
                + sql::filter_sql(filters)
            &&& sql::record_query(record_id, filters).args == seq![ArgModel::Text(record_id)]
                + sql::filter_args(filters)
            &&& sql::page_query(ids, filters).sql == sql::page_query(ids, none).sql
                + sql::filter_sql(filters)
            &&& sql::page_query(ids, filters).args.len() == ids.len() + sql::filter_args(
                filters,
            ).len()
            &&& forall|i: int|
                0 <= i < ids.len() ==> sql::page_query(ids, filters).args[i] == ArgModel::Text(
                    #[trigger] ids[i],
                )
            &&& sql::page_query(ids, filters).args.skip(ids.len() as int) == sql::filter_args(
                filters,
            )
            &&& sql::match_query(record_id, filters).sql
                == "SELECT 1 FROM records r WHERE r.record_id = ?"@ + sql::filter_sql(filters)
                + " LIMIT 1"@
            &&& sql::match_query(record_id, filters).args == sql::record_query(
                record_id,
                filters,
            ).args
        }),
{
    let none = Seq::<(Seq<char>, ExprModel)>::empty();
    assert(sql::filter_sql(none) =~= Seq::empty());
    assert(sql::filter_args(none) =~= Seq::empty());
    assert(sql::record_query(record_id, filters).sql =~= sql::record_query(record_id, none).sql
        + sql::filter_sql(filters));
    assert(sql::page_query(ids, filters).sql =~= sql::page_query(ids, none).sql + sql::filter_sql(
        filters,
    ));
    assert(sql::page_query(ids, filters).args.skip(ids.len() as int) =~= sql::filter_args(filters));
}

/// Whether the conditions that a text is like patterns hold, given the patterns; `like` says of a
/// text and a pattern whether it is.
pub open spec fn likes_hold(
    conditions: Seq<char>,
    values: Seq<ArgModel>,
    full: Seq<char>,
    like: spec_fn(Seq<char>, Seq<char>) -> bool,
) -> bool
    decreases values.len(),
{
    if conditions.len() == 0 || values.len() == 0 {
        conditions.len() == 0 && values.len() == 0
    } else {
        &&& conditions.len() >= 29
        &&& conditions.take(29) == " AND r.searchable_text LIKE ?"@
        &&& values[0] matches ArgModel::Text(pattern) && like(full, pattern)
        &&& likes_hold(conditions.skip(29), values.skip(1), full, like)
    }
}

proof fn lemma_like_front(n: nat)
    ensures
        " AND r.searchable_text LIKE ?"@.len() == 29,
        sql::like_sql(n + 1) == " AND r.searchable_text LIKE ?"@ + sql::like_sql(n),
    decreases n,
{
    reveal_strlit(" AND r.searchable_text LIKE ?");
    let one = " AND r.searchable_text LIKE ?"@;
    if n > 0 {
        lemma_like_front((n - 1) as nat);
        assert(sql::like_sql(n + 1) =~= one + sql::like_sql(n));
    } else {
        assert(sql::like_sql(0) =~= Seq::empty());
        assert(sql::like_sql(1) =~= one + sql::like_sql(0));
    }
}

/// The conditions on the words of a query hold of a text exactly where the text is like every one
/// of the words, with anything before it and anything after it.
pub proof fn law_words_are_looked_for(
    words: Seq<Seq<char>>,
    full: Seq<char>,
    like: spec_fn(Seq<char>, Seq<char>) -> bool,
)
    ensures
        likes_hold(sql::like_sql(words.len()), sql::like_args(words), full, like) <==> forall|i: int|
            0 <= i < words.len() ==> like(full, seq!['%'] + #[trigger] words[i] + seq!['%']),
    decreases words.len(),
{
    let args = sql::like_args(words);
    reveal_strlit("%");
    assert("%"@ =~= seq!['%']);
    if words.len() > 0 {
        let rest = words.drop_first();
        let n = rest.len();
        law_words_are_looked_for(rest, full, like);
        lemma_like_front(n);
        let text = sql::like_sql(words.len());
        assert(text.take(29) =~= " AND r.searchable_text LIKE ?"@);
        assert(text.skip(29) =~= sql::like_sql(n));
        assert(args.skip(1) =~= sql::like_args(rest));
        assert(args[0] == ArgModel::Text(seq!['%'] + words[0] + seq!['%']));
        if likes_hold(text, args, full, like) {
            assert forall|i: int| 0 <= i < words.len() implies like(
                full,
                seq!['%'] + #[trigger] words[i] + seq!['%'],
            ) by {
                if i > 0 {
                    assert(words[i] == rest[i - 1]);
                }
            }
        }
        if forall|i: int|
            0 <= i < words.len() ==> like(full, seq!['%'] + #[trigger] words[i] + seq!['%']) {
            assert forall|i: int| 0 <= i < rest.len() implies like(
                full,
                seq!['%'] + #[trigger] rest[i] + seq!['%'],
            ) by {
                assert(rest[i] == words[i + 1]);
            }
            assert(like(full, seq!['%'] + words[0] + seq!['%']));
        }
    }
}

/// The statement that looks for the words of a query has a condition for each word and the
/// conditions of the filters, lists the records by their ids, and no more of them than are wanted,
/// but one at least.
pub proof fn law_search_for_words(req: crate::protocol::SearchModel)
    requires
        req.top_k <= i64::MAX,
    ensures
        ({
            let words = text::words(req.query);
            let query = sql::like_query(req);
            let n = words.len() as int;
            let base =
                "SELECT r.record_id, r.display_json, r.payload_json, r.searchable_text, 0.0 AS rank FROM records r WHERE 1=1"@;
            &&& query.sql == base + (sql::like_sql(words.len()) + sql::filter_sql(req.filters))
                + " ORDER BY r.record_id LIMIT ?"@
            &&& query.args.len() == n + sql::filter_args(req.filters).len() + 1
            &&& query.args.take(n) == sql::like_args(words)
            &&& query.args.subrange(n, query.args.len() - 1) == sql::filter_args(req.filters)
            &&& query.args.last() == if req.top_k < 1 {
                ArgModel::Integer(1)
            } else {
                ArgModel::Integer(req.top_k as i64)
            }
        }),
{
    let words = text::words(req.query);
    let query = sql::like_query(req);
    let n = words.len() as int;
    let base =
        "SELECT r.record_id, r.display_json, r.payload_json, r.searchable_text, 0.0 AS rank FROM records r WHERE 1=1"@;
    assert(query.sql =~= base + (sql::like_sql(words.len()) + sql::filter_sql(req.filters))
        + " ORDER BY r.record_id LIMIT ?"@);
    assert(query.args.take(n) =~= sql::like_args(words));
    assert(query.args.subrange(n, query.args.len() - 1) =~= sql::filter_args(req.filters));
}

} // verus!
