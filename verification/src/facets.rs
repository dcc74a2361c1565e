//! The values of the filter fields of a dataset, and how often they occur.
use vstd::prelude::*;

use crate::json;
use crate::order;
use crate::order::order_falling;
use crate::protocol;
use crate::protocol::{FacetModel, FacetValue};
use crate::schema;
use crate::schema::{PreparedRecord, RecordModel};
use crate::sql;
use crate::sql::value_text;
use crate::text;
use crate::text_map;
use crate::text_map::TextMap;

verus! {

/// How often the records have a filter value with the text `key`, and the first such value.
pub open spec fn facet_cell(
    records: Seq<RecordModel>,
    field: Seq<char>,
    key: Seq<char>,
) -> Option<FacetModel>
    decreases records.len(),
{
    if records.len() == 0 {
        None
    } else {
        let before = facet_cell(records.drop_last(), field, key);
        match text_map::value_of(records.last().filters, field) {
            Some(value) => if sql::text_or_empty(value) == key {
                match before {
                    Some(cell) => Some(FacetModel { value: cell.value, count: cell.count + 1 }),
                    None => Some(FacetModel { value, count: 1 }),
                }
            } else {
                before
            },
            None => before,
        }
    }
}

/// Whether some record has the filter field.
pub open spec fn has_field(records: Seq<RecordModel>, field: Seq<char>) -> bool {
    exists|i: int|
        0 <= i < records.len() && text_map::value_of(
            (#[trigger] records[i]).filters,
            field,
        ) is Some
}

/// Whether the cells are those of the filter field, in the order of their texts.
pub open spec fn are_cells(
    cells: Seq<(Seq<char>, FacetModel)>,
    records: Seq<RecordModel>,
    field: Seq<char>,
) -> bool {
    &&& text_map::is_ordered(cells)
    &&& forall|key: Seq<char>| #[trigger]
        text_map::value_of(cells, key) == facet_cell(records, field, key)
}

/// The values of a filter field and how often records have them, in the order of their texts.
pub open spec fn facet_cells(
    records: Seq<RecordModel>,
    field: Seq<char>,
) -> Seq<(Seq<char>, FacetModel)> {
    choose|cells: Seq<(Seq<char>, FacetModel)>| are_cells(cells, records, field)
}

/// The values of cells.
pub open spec fn cell_values(cells: Seq<(Seq<char>, FacetModel)>) -> Seq<FacetModel> {
    Seq::new(cells.len(), |i: int| cells[i].1)
}

/// How often each value occurs.
pub open spec fn facet_counts(items: Seq<FacetModel>) -> Seq<int> {
    Seq::new(items.len(), |i: int| items[i].count)
}

/// The facets of a filter field: its values and how often records have them, the most frequent
/// first, and values that are as frequent in the order of their texts.
pub open spec fn facets_of(records: Seq<RecordModel>, field: Seq<char>) -> Seq<FacetModel> {
    let items = cell_values(facet_cells(records, field));
    order::listed(items, order::falling_order(facet_counts(items)))
}

proof fn lemma_facet_cells(
    cells: Seq<(Seq<char>, FacetModel)>,
    records: Seq<RecordModel>,
    field: Seq<char>,
)
    requires
        are_cells(cells, records, field),
    ensures
        facet_cells(records, field) == cells,
{
    let other = facet_cells(records, field);
    assert(are_cells(other, records, field));
    assert forall|k: Seq<char>| #[trigger] text_map::value_of(other, k) == text_map::value_of(
        cells,
        k,
    ) by {
        assert(text_map::value_of(other, k) == facet_cell(records, field, k));
        assert(text_map::value_of(cells, k) == facet_cell(records, field, k));
    }
    text_map::lemma_ordered_entries_determined(other, cells);
}

/// The views of the entries of a map of facet values.
pub open spec fn cell_models(
    s: Seq<(Seq<char>, FacetValue)>,
) -> Seq<(Seq<char>, FacetModel)> {
    Seq::new(s.len(), |i: int| (s[i].0, s[i].1@))
}

proof fn lemma_cell_models(s: Seq<(Seq<char>, FacetValue)>, name: Seq<char>)
    requires
        text_map::is_ordered(s),
    ensures
        text_map::is_ordered(cell_models(s)),
        text_map::value_of(cell_models(s), name) == (match text_map::value_of(s, name) {
            Some(v) => Some(v@),
            None => None,
        }),
{
    let m = cell_models(s);
    assert forall|i: int, j: int| 0 <= i < j < m.len() implies text::text_lt(
        (#[trigger] m[i]).0,
        (#[trigger] m[j]).0,
    ) by {
        assert(text::text_lt(s[i].0, s[j].0));
    }
    if text_map::has_key(s, name) {
        let i = choose|i: int| text_map::is_key_at(s, name, i);
        assert(text_map::is_key_at(m, name, i));
        text_map::lemma_value_of(m, i);
        text_map::lemma_value_of(s, i);
    } else if text_map::has_key(m, name) {
        let i = choose|i: int| text_map::is_key_at(m, name, i);
        assert(text_map::is_key_at(s, name, i));
    }
}

fn count_values(records: &Vec<PreparedRecord>, field: &str) -> (r: TextMap<FacetValue>)
    requires
        forall|i: int| 0 <= i < records@.len() ==> (#[trigger] records@[i]).wf(),
    ensures
        r.wf(),
        are_cells(cell_models(r@), schema::record_models(records@), field@),
{
    let ghost all = schema::record_models(records@);
    let mut out: TextMap<FacetValue> = TextMap::new();
    let mut i: usize = 0;
    proof {
        assert forall|key: Seq<char>| #[trigger]
            text_map::value_of(cell_models(out@), key) == facet_cell(all.take(0), field@, key) by {
            lemma_cell_models(out@, key);
        }
    }
    while i < records.len()
        invariant
            i <= records@.len(),
            forall|i: int| 0 <= i < records@.len() ==> (#[trigger] records@[i]).wf(),
            all == schema::record_models(records@),
            out.wf(),
            forall|key: Seq<char>| #[trigger]
                text_map::value_of(cell_models(out@), key) == facet_cell(
                    all.take(i as int),
                    field@,
                    key,
                ),
        decreases records@.len() - i,
    {
        let ghost before = out@;
        let ghost done = all.take(i as int);
        proof {
            assert(records@[i as int].wf());
            assert(all.take(i + 1).drop_last() =~= done);
            assert(all.take(i + 1).last() == records@[i as int]@);
            json::lemma_json_fields(records@[i as int].filters@, field@);
        }
        if let Some(value) = records[i].filters.get(field) {
            let key = value_text(value);
            proof {
                lemma_cell_models(before, key@);
                lemma_facet_cell(done, field@, key@);
                assert(text_map::value_of(cell_models(before), key@) == facet_cell(
                    done,
                    field@,
                    key@,
                ));
            }
            let cell = match out.get(key.as_str()) {
                Some(c) => FacetValue { value: c.value.copy(), count: c.count + 1 },
                None => FacetValue { value: value.copy(), count: 1 },
            };
            let ghost text = key@;
            out.insert(key, cell);
            proof {
                assert forall|k: Seq<char>| #[trigger]
                    text_map::value_of(cell_models(out@), k) == facet_cell(
                        all.take(i + 1),
                        field@,
                        k,
                    ) by {
                    lemma_cell_models(out@, k);
                    lemma_cell_models(before, k);
                    assert(text_map::value_of(cell_models(before), k) == facet_cell(
                        done,
                        field@,
                        k,
                    ));
                }
            }
        }
        i = i + 1;
    }
    proof {
        assert(all.take(i as int) =~= all);
        lemma_cell_models(out@, Seq::empty());
    }
    out
}

fn list_facets(cells: &TextMap<FacetValue>) -> (r: Vec<FacetValue>)
    ensures
        ({
            let items = cell_values(cell_models(cells@));
            protocol::facet_models(r@) == order::listed(
                items,
                order::falling_order(facet_counts(items)),
            )
        }),
{
    let ghost items = cell_values(cell_models(cells@));
    let mut keys: Vec<i128> = Vec::new();
    let mut i: usize = 0;
    assert(order::ints(keys@) =~= facet_counts(items).take(0));
    while i < cells.len()
        invariant
            i <= cells@.len(),
            items == cell_values(cell_models(cells@)),
            order::ints(keys@) == facet_counts(items).take(i as int),
        decreases cells@.len() - i,
    {
        let ghost before = order::ints(keys@);
        let count: u64 = cells.value_at(i).count;
        keys.push(count as i128);
        proof {
            assert(order::ints(keys@) =~= before.push(items[i as int].count));
            assert(order::ints(keys@) =~= facet_counts(items).take(i + 1));
        }
        i = i + 1;
    }
    assert(facet_counts(items).take(i as int) =~= facet_counts(items));
    let listing = order_falling(&keys);
    let ghost sorted = order::listed(items, order::falling_order(facet_counts(items)));
    let mut out: Vec<FacetValue> = Vec::new();
    let mut k: usize = 0;
    assert(protocol::facet_models(out@) =~= sorted.take(0));
    while k < listing.len()
        invariant
            k <= listing@.len(),
            items == cell_values(cell_models(cells@)),
            order::positions(listing@) == order::falling_order(facet_counts(items)),
            order::lists_all(order::positions(listing@), cells@.len() as int),
            sorted == order::listed(items, order::falling_order(facet_counts(items))),
            protocol::facet_models(out@) == sorted.take(k as int),
        decreases listing@.len() - k,
    {
        let ghost before = protocol::facet_models(out@);
        let at = listing[k];
        assert(order::positions(listing@)[k as int] == at);
        let cell = cells.value_at(at);
        out.push(FacetValue { value: cell.value.copy(), count: cell.count });
        proof {
            assert(protocol::facet_models(out@) =~= before.push(sorted[k as int]));
            assert(protocol::facet_models(out@) =~= sorted.take(k + 1));
        }
        k = k + 1;
    }
    assert(sorted.take(k as int) =~= sorted);
    out
}

fn collect_fields(records: &Vec<PreparedRecord>) -> (r: TextMap<()>)
    requires
        forall|i: int| 0 <= i < records@.len() ==> (#[trigger] records@[i]).wf(),
    ensures
        r.wf(),
        forall|field: Seq<char>| #[trigger]
            text_map::value_of(r@, field) is Some <==> has_field(
                schema::record_models(records@),
                field,
            ),
{
    let ghost all = schema::record_models(records@);
    let mut out: TextMap<()> = TextMap::new();
    let mut i: usize = 0;
    while i < records.len()
        invariant
            i <= records@.len(),
            forall|i: int| 0 <= i < records@.len() ==> (#[trigger] records@[i]).wf(),
            all == schema::record_models(records@),
            out.wf(),
            forall|field: Seq<char>| #[trigger]
                text_map::value_of(out@, field) is Some <==> has_field(all.take(i as int), field),
        decreases records@.len() - i,
    {
        let filters = &records[i].filters;
        let ghost before = out@;
        let ghost names = json::json_fields(filters@);
        let ghost done = all.take(i as int);
        let ghost more = all.take(i + 1);
        let mut j: usize = 0;
        proof {
            assert(records@[i as int].wf());
            assert(more[i as int].filters == names);
        }
        while j < filters.len()
            invariant
                j <= filters@.len(),
                names == json::json_fields(filters@),
                out.wf(),
                forall|field: Seq<char>| #[trigger]
                    text_map::value_of(out@, field) is Some <==> has_field(done, field) || (exists|
                        k: int,
                    |
                        0 <= k < j && (#[trigger] names[k]).0 == field),
            decreases filters@.len() - j,
        {
            let ghost so_far = out@;
            out.insert(filters.key_at(j).clone(), ());
            proof {
                let here = filters@[j as int].0;
                assert(names[j as int].0 == here);
                assert forall|field: Seq<char>| #[trigger]
                    text_map::value_of(out@, field) is Some <==> has_field(done, field) || (exists|
                        k: int,
                    |
                        0 <= k < j + 1 && (#[trigger] names[k]).0 == field) by {
                    assert(text_map::value_of(so_far, field) is Some <==> has_field(done, field)
                        || (exists|k: int| 0 <= k < j && (#[trigger] names[k]).0 == field));
                    if field == here {
                        assert(names[j as int].0 == field);
                    }
                }
            }
            j = j + 1;
        }
        proof {
            assert forall|field: Seq<char>| #[trigger]
                text_map::value_of(out@, field) is Some <==> has_field(more, field) by {
                json::lemma_json_fields(filters@, field);
                if has_field(done, field) {
                    let k = choose|k: int|
                        0 <= k < done.len() && text_map::value_of(
                            (#[trigger] done[k]).filters,
                            field,
                        ) is Some;
                    assert(more[k] == done[k]);
                }
                if exists|k: int| 0 <= k < names.len() && (#[trigger] names[k]).0 == field {
                    let k = choose|k: int| 0 <= k < names.len() && (#[trigger] names[k]).0
                        == field;
                    text_map::lemma_value_of(names, k);
                    assert(text_map::value_of(more[i as int].filters, field) is Some);
                }
                if has_field(more, field) {
                    let k = choose|k: int|
                        0 <= k < more.len() && text_map::value_of(
                            (#[trigger] more[k]).filters,
                            field,
                        ) is Some;
                    if k < i {
                        assert(done[k] == more[k]);
                    } else {
                        let n = choose|n: int| text_map::is_key_at(names, field, n);
                        assert(names[n].0 == field);
                    }
                }
            }
        }
        i = i + 1;
    }
    assert(all.take(i as int) =~= all);
    out
}

/// The facets of a field in a map.
pub open spec fn facets_at(
    facets: Seq<(Seq<char>, Vec<FacetValue>)>,
    field: Seq<char>,
) -> Option<Seq<FacetModel>> {
    match text_map::value_of(facets, field) {
        Some(items) => Some(protocol::facet_models(items@)),
        None => None,
    }
}

/// The facets of each filter field of the records.
pub fn write_facets(records: &Vec<PreparedRecord>) -> (r: TextMap<Vec<FacetValue>>)
    requires
        forall|i: int| 0 <= i < records@.len() ==> (#[trigger] records@[i]).wf(),
    ensures
        r.wf(),
        forall|field: Seq<char>| #[trigger]
            facets_at(r@, field) == (if has_field(schema::record_models(records@), field) {
                Some(facets_of(schema::record_models(records@), field))
            } else {
                None
            }),
{
    let ghost all = schema::record_models(records@);
    let fields = collect_fields(records);
    let mut out: TextMap<Vec<FacetValue>> = TextMap::new();
    let mut i: usize = 0;
    while i < fields.len()
        invariant
            i <= fields@.len(),
            forall|i: int| 0 <= i < records@.len() ==> (#[trigger] records@[i]).wf(),
            all == schema::record_models(records@),
            fields.wf(),
            out.wf(),
            forall|k: int| 0 <= k < i ==> facets_at(out@, (#[trigger] fields@[k]).0) == Some(
                facets_of(all, fields@[k].0),
            ),
            forall|field: Seq<char>| #[trigger]
                facets_at(out@, field) is Some ==> exists|k: int|
                    0 <= k < i && (#[trigger] fields@[k]).0 == field,
        decreases fields@.len() - i,
    {
        let ghost before = out@;
        let name = fields.key_at(i);
        let cells = count_values(records, name.as_str());
        let items = list_facets(&cells);
        proof {
            lemma_facet_cells(cell_models(cells@), all, name@);
        }
        out.insert(name.clone(), items);
        proof {
            assert forall|k: int| 0 <= k < i + 1 implies facets_at(
                out@,
                (#[trigger] fields@[k]).0,
            ) == Some(facets_of(all, fields@[k].0)) by {
                assert(text_map::value_of(out@, fields@[k].0) == (if fields@[k].0 == name@ {
                    Some(items)
                } else {
                    text_map::value_of(before, fields@[k].0)
                }));
            }
            assert forall|field: Seq<char>| #[trigger] facets_at(out@, field) is Some implies exists|
                k: int,
            |
                0 <= k < i + 1 && (#[trigger] fields@[k]).0 == field by {
                assert(text_map::value_of(out@, field) == (if field == name@ {
                    Some(items)
                } else {
                    text_map::value_of(before, field)
                }));
                if field == name@ {
                    assert(fields@[i as int].0 == field);
                } else {
                    assert(facets_at(before, field) is Some);
                }
            }
        }
        i = i + 1;
    }
    proof {
        assert forall|field: Seq<char>| #[trigger]
            facets_at(out@, field) == (if has_field(all, field) {
                Some(facets_of(all, field))
            } else {
                None
            }) by {
            assert(text_map::value_of(fields@, field) is Some <==> has_field(all, field));
            if has_field(all, field) {
                let k = choose|k: int| text_map::is_key_at(fields@, field, k);
                assert(fields@[k].0 == field);
            } else if facets_at(out@, field) is Some {
                let k = choose|k: int| 0 <= k < fields@.len() && (#[trigger] fields@[k]).0
                    == field;
                text_map::lemma_value_of(fields@, k);
            }
        }
    }
    out
}

/// In how many of the records the filter field has the text `key`.
pub open spec fn records_with(
    records: Seq<RecordModel>,
    field: Seq<char>,
    key: Seq<char>,
) -> int
    decreases records.len(),
{
    if records.len() == 0 {
        0
    } else {
        records_with(records.drop_last(), field, key) + (if has_value(
            records.last(),
            field,
            key,
        ) {
            1int
        } else {
            0int
        })
    }
}

/// Whether the filter field of a record has the text `key`.
pub open spec fn has_value(record: RecordModel, field: Seq<char>, key: Seq<char>) -> bool {
    match text_map::value_of(record.filters, field) {
        Some(value) => sql::text_or_empty(value) == key,
        None => false,
    }
}

proof fn lemma_cells_exist(records: Seq<RecordModel>, field: Seq<char>)
    ensures
        are_cells(facet_cells(records, field), records, field),
    decreases records.len(),
{
    if records.len() == 0 {
        let cells = Seq::<(Seq<char>, FacetModel)>::empty();
        assert(are_cells(cells, records, field));
    } else {
        let shorter = records.drop_last();
        lemma_cells_exist(shorter, field);
        let before = facet_cells(shorter, field);
        match text_map::value_of(records.last().filters, field) {
            Some(value) => {
                let key = sql::text_or_empty(value);
                let cell = facet_cell(records, field, key)->0;
                let cells = text_map::put(before, key, cell);
                text_map::lemma_put(before, key, cell);
                assert forall|k: Seq<char>| #[trigger]
                    text_map::value_of(cells, k) == facet_cell(records, field, k) by {
                    assert(text_map::value_of(before, k) == facet_cell(shorter, field, k));
                }
                assert(are_cells(cells, records, field));
            },
            None => {
                assert forall|k: Seq<char>| #[trigger]
                    text_map::value_of(before, k) == facet_cell(records, field, k) by {
                    assert(text_map::value_of(before, k) == facet_cell(shorter, field, k));
                }
                assert(are_cells(before, records, field));
            },
        }
    }
}

proof fn lemma_facet_cell(records: Seq<RecordModel>, field: Seq<char>, key: Seq<char>)
    ensures
        0 <= records_with(records, field, key) <= records.len(),
        facet_cell(records, field, key) is Some <==> records_with(records, field, key) > 0,
        facet_cell(records, field, key) matches Some(cell) ==> cell.count == records_with(
            records,
            field,
            key,
        ) && sql::text_or_empty(cell.value) == key,
    decreases records.len(),
{
    if records.len() > 0 {
        lemma_facet_cell(records.drop_last(), field, key);
    }
}

/// Whether the facets hold a value with the text `key`, counted `count` times.
pub open spec fn has_facet(items: Seq<FacetModel>, key: Seq<char>, count: int) -> bool {
    exists|i: int|
        0 <= i < items.len() && sql::text_or_empty((#[trigger] items[i]).value) == key
            && items[i].count == count
}

/// The facets of a field count, for each text that the field has in some record, the records
/// in which it has that text; they count nothing else, and the larger counts come first.
pub proof fn law_facets(records: Seq<RecordModel>, field: Seq<char>)
    ensures
        ({
            let items = facets_of(records, field);
            &&& forall|i: int, j: int|
                0 <= i < j < items.len() ==> (#[trigger] items[i]).count >= (
                #[trigger] items[j]).count
            &&& forall|i: int|
                0 <= i < items.len() ==> (#[trigger] items[i]).count > 0 && items[i].count
                    == records_with(records, field, sql::text_or_empty(items[i].value))
            &&& forall|key: Seq<char>|
                #[trigger] records_with(records, field, key) > 0 ==> has_facet(
                    items,
                    key,
                    records_with(records, field, key),
                )
        }),
{
    lemma_cells_exist(records, field);
    let cells = facet_cells(records, field);
    let values = cell_values(cells);
    let keys = facet_counts(values);
    let listing = order::falling_order(keys);
    let items = facets_of(records, field);
    order::law_falling_order(keys);
    assert forall|i: int, j: int| 0 <= i < j < items.len() implies (#[trigger] items[i]).count
        >= (#[trigger] items[j]).count by {
        order::lemma_listed(values, keys, i, j);
    }
    assert forall|i: int| 0 <= i < items.len() implies (#[trigger] items[i]).count > 0
        && items[i].count == records_with(
        records,
        field,
        sql::text_or_empty(items[i].value),
    ) by {
        let at = listing[i];
        assert(0 <= at < cells.len());
        assert(items[i] == cells[at].1);
        text_map::lemma_value_of(cells, at);
        assert(text_map::value_of(cells, cells[at].0) == facet_cell(records, field, cells[at].0));
        lemma_facet_cell(records, field, cells[at].0);
    }
    assert forall|key: Seq<char>|
        #[trigger] records_with(records, field, key) > 0 implies has_facet(
        items,
        key,
        records_with(records, field, key),
    ) by {
        lemma_facet_cell(records, field, key);
        assert(text_map::value_of(cells, key) == facet_cell(records, field, key));
        let k = choose|k: int| text_map::is_key_at(cells, key, k);
        text_map::lemma_value_of(cells, k);
        assert(listing.contains(k));
        let i = choose|i: int| 0 <= i < listing.len() && listing[i] == k;
        assert(items[i] == cells[k].1);
    }
}

/// Whether the filter field has a value in a record, and in no record before it one with the same
/// text.
pub open spec fn is_first_value(
    records: Seq<RecordModel>,
    field: Seq<char>,
    value: json::JsonModel,
    k: int,
) -> bool {
    &&& 0 <= k < records.len()
    &&& text_map::value_of(records[k].filters, field) == Some(value)
    &&& forall|j: int|
        0 <= j < k ==> !has_value(#[trigger] records[j], field, sql::text_or_empty(value))
}

proof fn lemma_first_value(records: Seq<RecordModel>, field: Seq<char>, key: Seq<char>) -> (k: int)
    requires
        facet_cell(records, field, key) is Some,
    ensures
        is_first_value(records, field, facet_cell(records, field, key)->0.value, k),
        sql::text_or_empty(facet_cell(records, field, key)->0.value) == key,
    decreases records.len(),
{
    let shorter = records.drop_last();
    let before = facet_cell(shorter, field, key);
    if before is Some {
        let k = lemma_first_value(shorter, field, key);
        assert(shorter[k] == records[k]);
        assert forall|j: int| 0 <= j < k implies !has_value(#[trigger] records[j], field, key) by {
            assert(shorter[j] == records[j]);
        }
        k
    } else {
        lemma_no_value(shorter, field, key);
        assert forall|j: int| 0 <= j < shorter.len() implies !has_value(
            #[trigger] records[j],
            field,
            key,
        ) by {
            assert(shorter[j] == records[j]);
        }
        records.len() - 1
    }
}

proof fn lemma_no_value(records: Seq<RecordModel>, field: Seq<char>, key: Seq<char>)
    requires
        facet_cell(records, field, key) is None,
    ensures
        forall|j: int| 0 <= j < records.len() ==> !has_value(#[trigger] records[j], field, key),
    decreases records.len(),
{
    if records.len() > 0 {
        let shorter = records.drop_last();
        lemma_no_value(shorter, field, key);
        assert forall|j: int| 0 <= j < records.len() implies !has_value(
            #[trigger] records[j],
            field,
            key,
        ) by {
            if j < shorter.len() {
                assert(shorter[j] == records[j]);
            }
        }
    }
}

/// A facet shows the value that the field has in the first record with its text; no text has two
/// facets; and of facets with the same count the one whose text comes first is first.
pub proof fn law_facet_values(records: Seq<RecordModel>, field: Seq<char>)
    ensures
        ({
            let items = facets_of(records, field);
            &&& forall|i: int|
                0 <= i < items.len() ==> shows_first_value(
                    records,
                    field,
                    (#[trigger] items[i]).value,
                )
            &&& forall|i: int, j: int|
                0 <= i < j < items.len() ==> {
                    let a = sql::text_or_empty((#[trigger] items[i]).value);
                    let b = sql::text_or_empty((#[trigger] items[j]).value);
                    a != b && (items[i].count == items[j].count ==> text::text_lt(a, b))
                }
        }),
{
    lemma_cells_exist(records, field);
    let cells = facet_cells(records, field);
    let values = cell_values(cells);
    let keys = facet_counts(values);
    let listing = order::falling_order(keys);
    let items = facets_of(records, field);
    order::law_falling_order(keys);
    assert forall|at: int| 0 <= at < cells.len() implies sql::text_or_empty(
        (#[trigger] cells[at]).1.value,
    ) == cells[at].0 && shows_first_value(records, field, cells[at].1.value) by {
        text_map::lemma_value_of(cells, at);
        assert(text_map::value_of(cells, cells[at].0) == facet_cell(records, field, cells[at].0));
        let k = lemma_first_value(records, field, cells[at].0);
        assert(is_first_value(records, field, cells[at].1.value, k));
    }
    assert forall|i: int| 0 <= i < items.len() implies shows_first_value(
        records,
        field,
        (#[trigger] items[i]).value,
    ) by {
        assert(items[i] == cells[listing[i]].1);
    }
    assert forall|i: int, j: int| 0 <= i < j < items.len() implies {
        let a = sql::text_or_empty((#[trigger] items[i]).value);
        let b = sql::text_or_empty((#[trigger] items[j]).value);
        a != b && (items[i].count == items[j].count ==> text::text_lt(a, b))
    } by {
        let x = listing[i];
        let y = listing[j];
        assert(x != y);
        assert(items[i] == cells[x].1 && items[j] == cells[y].1);
        order::law_ties_keep_their_order(keys, i, j);
        if cells[x].0 == cells[y].0 {
            text_map::lemma_key_unique(cells, x, y);
        }
        if items[i].count == items[j].count {
            assert(x < y);
            assert(text::text_lt(cells[x].0, cells[y].0));
        }
    }
}

/// Whether a value is the first one with its text that the filter field has in the records.
pub open spec fn shows_first_value(
    records: Seq<RecordModel>,
    field: Seq<char>,
    value: json::JsonModel,
) -> bool {
    exists|k: int| is_first_value(records, field, value, k)
}

} // verus!
