//! End-to-end laws of the aggregation pipeline.
//!
//! These proof functions state, over whole input streams, what each row's
//! accumulators hold after the fold: a count cell is exactly the number of
//! records of its key whose field was present, and an average cell is
//! exactly the mean of its key's numeric field values — or missing where
//! there are none, never a division by zero.

use vstd::prelude::*;

use crate::aggregate::{
    find_key, lemma_find_key, lemma_find_key_at, record_key, record_values, row_slot,
    slot_or_new, slot_value, table_fold, table_update_model, TableDef, TableModel,
};
use crate::fixed::round_div;
use crate::json::json_of;
use crate::log_record::ValueModel;
use crate::operation::{
    lemma_average_law, lemma_count_law, non_missing_count, numeric_count, numeric_sum, op_fold,
    op_new_spec, op_update_spec, OpModel, OpType,
};
use crate::aggregate::table_keys;
use crate::order::{lemma_sort_keys_props, sort_keys, sorted_lex};
use crate::visualize::{
    csv_line, csv_rows_str, csv_str, header_cells, join_comma, row_cells, row_of, tail_comma,
};

verus! {

/// The records a stream of lines yields, in order: the key and the field
/// values of every line up to the first that is not valid JSON, lines
/// whose key accessor does not resolve left out.
pub open spec fn records_of(def: TableDef, lines: Seq<Seq<char>>) -> Seq<
    (Seq<char>, Seq<ValueModel>),
>
    decreases lines.len(),
{
    if lines.len() == 0 {
        Seq::empty()
    } else {
        match json_of(lines[0]) {
            None => Seq::empty(),
            Some(doc) => (match record_key(def, doc) {
                Some(k) => seq![(k, record_values(def, doc))],
                None => Seq::empty(),
            }) + records_of(def, lines.drop_first()),
        }
    }
}

/// The stream of values field `i` saw on the records of one key, in order.
pub open spec fn key_field_stream(
    recs: Seq<(Seq<char>, Seq<ValueModel>)>,
    key: Seq<char>,
    i: int,
) -> Seq<ValueModel>
    decreases recs.len(),
{
    if recs.len() == 0 {
        Seq::empty()
    } else {
        let rest = key_field_stream(recs.drop_first(), key, i);
        if recs[0].0 == key {
            seq![recs[0].1[i]] + rest
        } else {
            rest
        }
    }
}

/// Whether a table holds a row for the key.
pub open spec fn has_key(tm: TableModel, key: Seq<char>) -> bool {
    find_key(tm, key) < tm.len()
}

/// The accumulator the key's row holds at field position `i`.
pub open spec fn key_slot(tm: TableModel, key: Seq<char>, i: int) -> Option<OpModel> {
    row_slot(tm[find_key(tm, key)].1, i)
}

/// An accumulator state folded forward over a stream of values.
pub open spec fn op_fold_from(o: OpModel, vs: Seq<ValueModel>) -> OpModel
    decreases vs.len(),
{
    if vs.len() == 0 {
        o
    } else {
        op_fold_from(op_update_spec(o, vs[0]), vs.drop_first())
    }
}

/// An accumulator slot after a stream of values: untouched by an empty
/// stream, else created if need be and folded forward.
pub open spec fn slot_after(slot: Option<OpModel>, kind: OpType, vs: Seq<ValueModel>) -> Option<
    OpModel,
> {
    if vs.len() == 0 {
        slot
    } else {
        Some(op_fold_from(slot_or_new(slot, kind), vs))
    }
}

/// Folding forward commutes with appending one value at the end.
proof fn lemma_fold_from_push(o: OpModel, vs: Seq<ValueModel>, v: ValueModel)
    ensures
        op_fold_from(o, vs.push(v)) == op_update_spec(op_fold_from(o, vs), v),
    decreases vs.len(),
{
    if vs.len() == 0 {
        assert(vs.push(v)[0] == v);
        assert(vs.push(v).drop_first() =~= Seq::<ValueModel>::empty());
        assert(op_fold_from(op_update_spec(o, v), Seq::<ValueModel>::empty()) == op_update_spec(
            o,
            v,
        ));
        assert(op_fold_from(o, vs.push(v)) == op_fold_from(
            op_update_spec(o, v),
            Seq::<ValueModel>::empty(),
        ));
    } else {
        assert(vs.push(v)[0] == vs[0]);
        assert(vs.push(v).drop_first() =~= vs.drop_first().push(v));
        lemma_fold_from_push(op_update_spec(o, vs[0]), vs.drop_first(), v);
        assert(op_fold_from(o, vs.push(v)) == op_fold_from(
            op_update_spec(o, vs[0]),
            vs.drop_first().push(v),
        ));
        assert(op_fold_from(o, vs) == op_fold_from(op_update_spec(o, vs[0]), vs.drop_first()));
    }
}

/// Folding forward from the fresh state is folding the whole stream.
proof fn lemma_op_fold_eq(t: OpType, vs: Seq<ValueModel>)
    ensures
        op_fold(t, vs) == op_fold_from(op_new_spec(t), vs),
    decreases vs.len(),
{
    if vs.len() > 0 {
        lemma_op_fold_eq(t, vs.drop_last());
        lemma_fold_from_push(op_new_spec(t), vs.drop_last(), vs.last());
        assert(vs.drop_last().push(vs.last()) =~= vs);
    }
}

/// Consuming one value first, then the rest, is consuming the whole
/// stream.
proof fn lemma_slot_after_step(slot: Option<OpModel>, kind: OpType, v: ValueModel, vs: Seq<
    ValueModel,
>)
    ensures
        slot_after(slot, kind, seq![v] + vs) == slot_after(
            Some(op_update_spec(slot_or_new(slot, kind), v)),
            kind,
            vs,
        ),
{
    let w = seq![v] + vs;
    assert(w[0] == v);
    assert(w.drop_first() =~= vs);
    let u = op_update_spec(slot_or_new(slot, kind), v);
    if vs.len() == 0 {
        assert(op_fold_from(slot_or_new(slot, kind), w) == u);
    } else {
        assert(op_fold_from(slot_or_new(slot, kind), w) == op_fold_from(u, vs));
        assert(slot_or_new(Some(u), kind) == u);
    }
}

/// What one record does to one key's slot: its own key's slot is created
/// if absent and updated with the field's value; every other key's row is
/// untouched.
proof fn lemma_update_slot(
    def: TableDef,
    tm: TableModel,
    k: Seq<char>,
    vals: Seq<ValueModel>,
    key: Seq<char>,
    i: int,
)
    requires
        0 <= i < def.fields@.len(),
        vals.len() == def.fields@.len(),
    ensures
        ({
            let tm2 = table_update_model(def, tm, k, vals);
            &&& (has_key(tm2, key) <==> (has_key(tm, key) || k == key))
            &&& (k == key ==> has_key(tm2, key) && key_slot(tm2, key, i) == Some(
                op_update_spec(
                    slot_or_new(
                        if has_key(tm, key) {
                            key_slot(tm, key, i)
                        } else {
                            None
                        },
                        def.fields@[i].op_type,
                    ),
                    vals[i],
                ),
            ))
            &&& (k != key && has_key(tm, key) ==> has_key(tm2, key) && key_slot(tm2, key, i)
                == key_slot(tm, key, i))
            &&& (k != key && !has_key(tm, key) ==> !has_key(tm2, key))
        }),
{
    let tm2 = table_update_model(def, tm, k, vals);
    lemma_find_key(tm, k);
    lemma_find_key(tm, key);
    let j = find_key(tm, k);
    let jk = find_key(tm, key);
    if j < tm.len() {
        // The key's row exists and is updated in place.
        let row2 = crate::aggregate::row_update_model(def.fields@, tm[j].1, vals);
        assert(tm2 =~= tm.update(j, (k, row2)));
        assert(tm[j].0 == k);
        assert(forall|m: int| 0 <= m < tm2.len() ==> (#[trigger] tm2[m]).0 == tm[m].0);
        if k == key {
            lemma_find_key_at(tm2, key, j);
            assert(key_slot(tm2, key, i) == row_slot(row2, i));
        } else {
            if jk < tm.len() {
                lemma_find_key_at(tm2, key, jk);
                assert(jk != j);
                assert(tm2[jk] == tm[jk]);
            } else {
                lemma_find_key_at(tm2, key, tm2.len() as int);
            }
        }
    } else {
        // A new row is created for the key, first seen.
        let row2 = crate::aggregate::row_update_model(
            def.fields@,
            Seq::<Option<OpModel>>::empty(),
            vals,
        );
        assert(tm2 =~= tm.push((k, row2)));
        assert(forall|m: int| 0 <= m < tm.len() ==> (#[trigger] tm2[m]).0 == tm[m].0);
        assert(tm2[tm.len() as int].0 == k);
        if k == key {
            lemma_find_key_at(tm2, key, tm.len() as int);
            assert(key_slot(tm2, key, i) == row_slot(row2, i));
            assert(row_slot(Seq::<Option<OpModel>>::empty(), i) is None);
        } else {
            if jk < tm.len() {
                lemma_find_key_at(tm2, key, jk);
                assert(tm2[jk] == tm[jk]);
            } else {
                lemma_find_key_at(tm2, key, tm2.len() as int);
            }
        }
    }
}

/// What a whole stream of lines does to one key's slot at one field: the
/// key's row exists afterwards exactly if it existed before or some record
/// carried the key, and its slot is the fold of the key's field stream
/// onto what was there.
proof fn lemma_fold_slot(
    def: TableDef,
    tm: TableModel,
    lines: Seq<Seq<char>>,
    key: Seq<char>,
    i: int,
)
    requires
        0 <= i < def.fields@.len(),
    ensures
        ({
            let tm2 = table_fold(def, tm, lines);
            let vs = key_field_stream(records_of(def, lines), key, i);
            let pre = if has_key(tm, key) {
                key_slot(tm, key, i)
            } else {
                None
            };
            &&& (has_key(tm2, key) <==> (has_key(tm, key) || vs.len() > 0))
            &&& (has_key(tm2, key) ==> key_slot(tm2, key, i) == slot_after(
                pre,
                def.fields@[i].op_type,
                vs,
            ))
        }),
    decreases lines.len(),
{
    let tm2 = table_fold(def, tm, lines);
    let recs = records_of(def, lines);
    let vs = key_field_stream(recs, key, i);
    let kind = def.fields@[i].op_type;
    if lines.len() == 0 {
    } else {
        match json_of(lines[0]) {
            None => {},
            Some(doc) => {
                let rest = lines.drop_first();
                let rest_recs = records_of(def, rest);
                match record_key(def, doc) {
                    Some(k) => {
                        let vals = record_values(def, doc);
                        let tm_mid = table_update_model(def, tm, k, vals);
                        assert(recs =~= seq![(k, vals)] + rest_recs);
                        assert(recs[0] == (k, vals));
                        assert(recs.drop_first() =~= rest_recs);
                        lemma_update_slot(def, tm, k, vals, key, i);
                        lemma_fold_slot(def, tm_mid, rest, key, i);
                        if k == key {
                            assert(vs =~= seq![vals[i]] + key_field_stream(rest_recs, key, i));
                            let pre = if has_key(tm, key) {
                                key_slot(tm, key, i)
                            } else {
                                None
                            };
                            lemma_slot_after_step(
                                pre,
                                kind,
                                vals[i],
                                key_field_stream(rest_recs, key, i),
                            );
                        } else {
                            assert(vs =~= key_field_stream(rest_recs, key, i));
                        }
                    },
                    None => {
                        assert(recs =~= rest_recs);
                        lemma_fold_slot(def, tm, rest, key, i);
                    },
                }
            },
        }
    }
}

/// For every input stream, every key and every field configured to count:
/// once the key has been seen, its count cell reports exactly the number
/// of its records whose value for the field was present — provided that
/// number fits the counter.
pub proof fn count_law(def: TableDef, lines: Seq<Seq<char>>, key: Seq<char>, i: int)
    requires
        0 <= i < def.fields@.len(),
        def.fields@[i].op_type == OpType::Count,
        non_missing_count(key_field_stream(records_of(def, lines), key, i)) <= u32::MAX,
    ensures
        ({
            let tm = table_fold(def, Seq::empty(), lines);
            let vs = key_field_stream(records_of(def, lines), key, i);
            &&& (has_key(tm, key) <==> vs.len() > 0)
            &&& (vs.len() > 0 ==> slot_value(key_slot(tm, key, i)) == ValueModel::Int(
                non_missing_count(vs),
            ))
        }),
{
    let vs = key_field_stream(records_of(def, lines), key, i);
    lemma_fold_slot(def, Seq::empty(), lines, key, i);
    assert(!has_key(Seq::empty(), key));
    if vs.len() > 0 {
        lemma_op_fold_eq(OpType::Count, vs);
        lemma_count_law(vs);
    }
}

/// For every input stream, every key and every field configured to
/// average: once the key has been seen, its average cell reports exactly
/// the mean of its records' numeric values for the field, rounded to the
/// nearest fixed-point unit — and the missing marker where no numeric
/// value was seen, never a division by zero — provided the sample count
/// fits the counter.
pub proof fn average_law(def: TableDef, lines: Seq<Seq<char>>, key: Seq<char>, i: int)
    requires
        0 <= i < def.fields@.len(),
        def.fields@[i].op_type == OpType::Average,
        numeric_count(key_field_stream(records_of(def, lines), key, i)) <= u32::MAX,
    ensures
        ({
            let tm = table_fold(def, Seq::empty(), lines);
            let vs = key_field_stream(records_of(def, lines), key, i);
            &&& (has_key(tm, key) <==> vs.len() > 0)
            &&& (vs.len() > 0 ==> slot_value(key_slot(tm, key, i)) == (if numeric_count(vs)
                == 0 {
                ValueModel::Missing
            } else {
                ValueModel::Flt(round_div(numeric_sum(vs), numeric_count(vs)))
            }))
        }),
{
    let vs = key_field_stream(records_of(def, lines), key, i);
    lemma_fold_slot(def, Seq::empty(), lines, key, i);
    assert(!has_key(Seq::empty(), key));
    if vs.len() > 0 {
        lemma_op_fold_eq(OpType::Average, vs);
        lemma_average_law(vs);
    }
}


/// The rendering order both renderers use is ascending lexicographic by
/// key, explicitly enforced: the sorted key list is in order and holds
/// exactly the table's keys — never the incidental storage order.
pub proof fn rendering_order_law(tm: TableModel)
    ensures
        sorted_lex(sort_keys(table_keys(tm))),
        sort_keys(table_keys(tm)).len() == table_keys(tm).len(),
        forall|m: int|
            0 <= m < sort_keys(table_keys(tm)).len() ==> table_keys(tm).contains(
                #[trigger] sort_keys(table_keys(tm))[m],
            ),
        forall|m: int|
            0 <= m < table_keys(tm).len() ==> sort_keys(table_keys(tm)).contains(
                #[trigger] table_keys(tm)[m],
            ),
{
    lemma_sort_keys_props(table_keys(tm));
}

/// Index of the first occurrence of `sep` in `s`, or `s.len()` if there is
/// none.
pub open spec fn find_sep(sep: char, s: Seq<char>) -> int
    decreases s.len(),
{
    if s.len() == 0 {
        0
    } else if s[0] == sep {
        0
    } else {
        1 + find_sep(sep, s.drop_first())
    }
}

/// Text split at every occurrence of `sep`: the pieces in order, empty
/// pieces kept.
pub open spec fn split_sep(sep: char, s: Seq<char>) -> Seq<Seq<char>>
    decreases s.len(),
{
    let p = find_sep(sep, s);
    if 0 <= p < s.len() {
        seq![s.subrange(0, p)] + split_sep(sep, s.skip(p + 1))
    } else {
        seq![s]
    }
}

/// Whether `s` is free of the character `c`.
pub open spec fn sep_free(s: Seq<char>, c: char) -> bool {
    forall|j: int| 0 <= j < s.len() ==> s[j] != c
}

/// Where the first separator stands: no separator before it, one at it
/// unless there is none at all.
proof fn lemma_find_sep(sep: char, s: Seq<char>)
    ensures
        0 <= find_sep(sep, s) <= s.len(),
        forall|m: int| 0 <= m < find_sep(sep, s) ==> s[m] != sep,
        find_sep(sep, s) < s.len() ==> s[find_sep(sep, s)] == sep,
    decreases s.len(),
{
    if s.len() > 0 && s[0] != sep {
        lemma_find_sep(sep, s.drop_first());
        assert forall|m: int| 0 <= m < find_sep(sep, s) implies s[m] != sep by {
            if m >= 1 {
                assert(s.drop_first()[m - 1] == s[m]);
            }
        }
        if find_sep(sep, s) < s.len() {
            assert(s[find_sep(sep, s)] == s.drop_first()[find_sep(sep, s) - 1]);
        }
    }
}

/// The first separator stands exactly where one follows a separator-free
/// prefix.
proof fn lemma_find_sep_at(sep: char, s: Seq<char>, j: int)
    requires
        0 <= j <= s.len(),
        forall|m: int| 0 <= m < j ==> s[m] != sep,
        j < s.len() ==> s[j] == sep,
    ensures
        find_sep(sep, s) == j,
{
    lemma_find_sep(sep, s);
    if find_sep(sep, s) < j {
        assert(s[find_sep(sep, s)] == sep);
    }
    if find_sep(sep, s) > j {
        assert(s[j] != sep);
    }
}

/// Splitting separator-free text yields the text itself, whole.
proof fn lemma_split_whole(sep: char, a: Seq<char>)
    requires
        sep_free(a, sep),
    ensures
        split_sep(sep, a) == seq![a],
{
    lemma_find_sep_at(sep, a, a.len() as int);
}

/// Splitting at the first separator peels off a separator-free prefix.
proof fn lemma_split_one(sep: char, a: Seq<char>, b: Seq<char>)
    requires
        sep_free(a, sep),
    ensures
        split_sep(sep, a + seq![sep] + b) == seq![a] + split_sep(sep, b),
{
    let s = a + seq![sep] + b;
    assert forall|m: int| 0 <= m < a.len() implies s[m] != sep by {
        assert(s[m] == a[m]);
    }
    assert(s[a.len() as int] == sep);
    lemma_find_sep_at(sep, s, a.len() as int);
    assert(s.subrange(0, a.len() as int) =~= a);
    assert(s.skip(a.len() as int + 1) =~= b);
}

/// Cells after the first, unfolded from the front: a comma, the first
/// cell, the rest.
proof fn lemma_tail_comma_front(cells: Seq<Seq<char>>)
    requires
        cells.len() >= 1,
    ensures
        tail_comma(cells) == seq![','] + cells[0] + tail_comma(cells.drop_first()),
    decreases cells.len(),
{
    if cells.len() == 1 {
        assert(cells.drop_last() =~= Seq::<Seq<char>>::empty());
        assert(cells.drop_first() =~= Seq::<Seq<char>>::empty());
        assert(tail_comma(cells) =~= seq![','] + cells[0] + tail_comma(cells.drop_first()));
    } else {
        lemma_tail_comma_front(cells.drop_last());
        assert(cells.drop_last()[0] == cells[0]);
        assert(cells.drop_last().drop_first() =~= cells.drop_first().drop_last());
        assert(cells.drop_first().last() == cells.last());
        assert(tail_comma(cells) =~= seq![','] + cells[0] + (tail_comma(
            cells.drop_first().drop_last(),
        ) + seq![','] + cells.drop_first().last()));
        assert(tail_comma(cells) =~= seq![','] + cells[0] + tail_comma(cells.drop_first()));
    }
}

/// A joined line, unfolded from the front: the first cell, a comma, the
/// joined rest.
proof fn lemma_join_front(cells: Seq<Seq<char>>)
    requires
        cells.len() >= 2,
    ensures
        join_comma(cells) == cells[0] + seq![','] + join_comma(cells.drop_first()),
{
    lemma_tail_comma_front(cells.drop_first());
    assert(cells.drop_first()[0] == cells[1]);
    assert(join_comma(cells) =~= cells[0] + seq![','] + join_comma(cells.drop_first()));
}

/// A line joined from comma-free cells contains no separator but its
/// commas.
proof fn lemma_join_free(cells: Seq<Seq<char>>, c: char)
    requires
        c != ',',
        forall|i: int| 0 <= i < cells.len() ==> sep_free(#[trigger] cells[i], c),
    ensures
        sep_free(join_comma(cells), c),
    decreases cells.len(),
{
    if cells.len() >= 2 {
        lemma_join_front(cells);
        assert(forall|i: int|
            0 <= i < cells.drop_first().len() ==> sep_free(
                #[trigger] cells.drop_first()[i],
                c,
            ));
        lemma_join_free(cells.drop_first(), c);
        let s = cells[0] + seq![','] + join_comma(cells.drop_first());
        assert forall|j: int| 0 <= j < s.len() implies s[j] != c by {
            if j < cells[0].len() {
                assert(s[j] == cells[0][j]);
            } else if j == cells[0].len() {
                assert(s[j] == ',');
            } else {
                assert(s[j] == join_comma(cells.drop_first())[j - cells[0].len() - 1]);
            }
        }
    } else if cells.len() == 1 {
        assert(cells.drop_first() =~= Seq::<Seq<char>>::empty());
        assert(join_comma(cells) =~= cells[0]);
    }
}

/// Splitting a joined line on commas recovers the cells, provided no cell
/// holds a comma of its own (delimiters are not escaped).
pub proof fn lemma_split_join(cells: Seq<Seq<char>>)
    requires
        cells.len() >= 1,
        forall|i: int| 0 <= i < cells.len() ==> sep_free(#[trigger] cells[i], ','),
    ensures
        split_sep(',', join_comma(cells)) == cells,
    decreases cells.len(),
{
    if cells.len() == 1 {
        assert(cells.drop_first() =~= Seq::<Seq<char>>::empty());
        assert(join_comma(cells) =~= cells[0]);
        lemma_split_whole(',', cells[0]);
        assert(seq![cells[0]] =~= cells);
    } else {
        lemma_join_front(cells);
        assert(forall|i: int|
            0 <= i < cells.drop_first().len() ==> sep_free(
                #[trigger] cells.drop_first()[i],
                ',',
            ));
        lemma_split_join(cells.drop_first());
        lemma_split_one(',', cells[0], join_comma(cells.drop_first()));
        assert(seq![cells[0]] + cells.drop_first() =~= cells);
    }
}

/// Delimited row lines, unfolded from the front.
proof fn lemma_csv_rows_front(def: TableDef, tm: TableModel, keys: Seq<Seq<char>>)
    requires
        keys.len() >= 1,
    ensures
        csv_rows_str(def, tm, keys) == csv_line(
            seq![keys[0]] + row_cells(def, row_of(tm, keys[0])),
        ) + csv_rows_str(def, tm, keys.drop_first()),
    decreases keys.len(),
{
    if keys.len() == 1 {
        assert(keys.drop_last() =~= Seq::<Seq<char>>::empty());
        assert(keys.drop_first() =~= Seq::<Seq<char>>::empty());
        assert(keys.last() == keys[0]);
        assert(csv_rows_str(def, tm, keys) =~= csv_line(
            seq![keys[0]] + row_cells(def, row_of(tm, keys[0])),
        ) + csv_rows_str(def, tm, keys.drop_first()));
    } else {
        lemma_csv_rows_front(def, tm, keys.drop_last());
        assert(keys.drop_last()[0] == keys[0]);
        assert(keys.drop_last().drop_first() =~= keys.drop_first().drop_last());
        assert(keys.drop_first().last() == keys.last());
        assert(csv_rows_str(def, tm, keys) =~= csv_line(
            seq![keys[0]] + row_cells(def, row_of(tm, keys[0])),
        ) + (csv_rows_str(def, tm, keys.drop_first().drop_last()) + csv_line(
            seq![keys.drop_first().last()] + row_cells(
                def,
                row_of(tm, keys.drop_first().last()),
            ),
        )));
        assert(csv_rows_str(def, tm, keys) =~= csv_line(
            seq![keys[0]] + row_cells(def, row_of(tm, keys[0])),
        ) + csv_rows_str(def, tm, keys.drop_first()));
    }
}

/// Whether every key of the list, and every displayed cell of its row,
/// is free of both delimiters.
pub open spec fn keys_clean(def: TableDef, tm: TableModel, keys: Seq<Seq<char>>) -> bool {
    forall|m: int|
        0 <= m < keys.len() ==> {
            let cells = seq![keys[m]] + row_cells(def, row_of(tm, #[trigger] keys[m]));
            forall|i: int|
                0 <= i < cells.len() ==> sep_free(#[trigger] cells[i], ',') && sep_free(
                    cells[i],
                    '\n',
                )
        }
}

/// Splitting the rendered row lines on newlines recovers each row's
/// joined line, with one empty trailing piece.
proof fn lemma_split_rows(def: TableDef, tm: TableModel, keys: Seq<Seq<char>>)
    requires
        keys_clean(def, tm, keys),
    ensures
        split_sep('\n', csv_rows_str(def, tm, keys)) == Seq::new(
            keys.len(),
            |m: int| join_comma(seq![keys[m]] + row_cells(def, row_of(tm, keys[m]))),
        ) + seq![Seq::<char>::empty()],
    decreases keys.len(),
{
    if keys.len() == 0 {
        assert(find_sep('\n', Seq::<char>::empty()) == 0);
        assert(split_sep('\n', csv_rows_str(def, tm, keys)) =~~= Seq::new(
            keys.len(),
            |m: int| join_comma(seq![keys[m]] + row_cells(def, row_of(tm, keys[m]))),
        ) + seq![Seq::<char>::empty()]);
    } else {
        lemma_csv_rows_front(def, tm, keys);
        assert(keys_clean(def, tm, keys.drop_first())) by {
            assert(forall|m: int|
                0 <= m < keys.drop_first().len() ==> #[trigger] keys.drop_first()[m] == keys[m
                    + 1]);
        }
        lemma_split_rows(def, tm, keys.drop_first());
        let cells0 = seq![keys[0]] + row_cells(def, row_of(tm, keys[0]));
        assert(forall|i: int| 0 <= i < cells0.len() ==> sep_free(#[trigger] cells0[i], '\n'));
        lemma_join_free(cells0, '\n');
        assert(csv_line(cells0) =~= join_comma(cells0) + seq!['\n']);
        assert(csv_rows_str(def, tm, keys) =~= join_comma(cells0) + seq!['\n'] + csv_rows_str(
            def,
            tm,
            keys.drop_first(),
        ));
        lemma_split_one('\n', join_comma(cells0), csv_rows_str(def, tm, keys.drop_first()));
        assert(split_sep('\n', csv_rows_str(def, tm, keys)) =~~= Seq::new(
            keys.len(),
            |m: int| join_comma(seq![keys[m]] + row_cells(def, row_of(tm, keys[m]))),
        ) + seq![Seq::<char>::empty()]);
    }
}

/// Whether every header name, key and displayed cell of the table is free
/// of both delimiters, so that the delimited output can be parsed back.
pub open spec fn table_text_clean(def: TableDef, tm: TableModel) -> bool {
    &&& forall|i: int|
        0 <= i < header_cells(def).len() ==> sep_free(#[trigger] header_cells(def)[i], ',')
            && sep_free(header_cells(def)[i], '\n')
    &&& keys_clean(def, tm, sort_keys(table_keys(tm)))
}

/// Re-parsing the delimited output recovers the same key set and the same
/// displayed string values: splitting on newlines yields the header line,
/// one line per key in rendering order and an empty trailing piece, and
/// splitting each line on commas yields exactly the rendered cells. The
/// keys recovered are exactly the table's keys.
pub proof fn csv_round_trip(def: TableDef, tm: TableModel)
    requires
        table_text_clean(def, tm),
    ensures
        ({
            let sorted = sort_keys(table_keys(tm));
            let parsed = split_sep('\n', csv_str(def, tm));
            &&& parsed.len() == sorted.len() + 2
            &&& split_sep(',', parsed[0]) == header_cells(def)
            &&& forall|m: int|
                0 <= m < sorted.len() ==> split_sep(',', #[trigger] parsed[m + 1]) == seq![
                    sorted[m],
                ] + row_cells(def, row_of(tm, sorted[m]))
            &&& parsed.last() == Seq::<char>::empty()
            &&& forall|m: int|
                0 <= m < sorted.len() ==> table_keys(tm).contains(#[trigger] sorted[m])
            &&& forall|m: int|
                0 <= m < table_keys(tm).len() ==> sorted.contains(#[trigger] table_keys(tm)[m])
        }),
{
    let sorted = sort_keys(table_keys(tm));
    let parsed = split_sep('\n', csv_str(def, tm));
    lemma_sort_keys_props(table_keys(tm));
    lemma_join_free(header_cells(def), '\n');
    assert(csv_str(def, tm) =~= join_comma(header_cells(def)) + seq!['\n'] + csv_rows_str(
        def,
        tm,
        sorted,
    ));
    lemma_split_one('\n', join_comma(header_cells(def)), csv_rows_str(def, tm, sorted));
    lemma_split_rows(def, tm, sorted);
    let body = Seq::new(
        sorted.len(),
        |m: int| join_comma(seq![sorted[m]] + row_cells(def, row_of(tm, sorted[m]))),
    );
    assert(parsed =~~= seq![join_comma(header_cells(def))] + body + seq![Seq::<char>::empty()]);
    assert(header_cells(def).len() >= 1);
    lemma_split_join(header_cells(def));
    assert(parsed[0] == join_comma(header_cells(def)));
    assert forall|m: int| 0 <= m < sorted.len() implies split_sep(',', #[trigger] parsed[m + 1])
        == seq![sorted[m]] + row_cells(def, row_of(tm, sorted[m])) by {
        assert(parsed[m + 1] == body[m]);
        let cells = seq![sorted[m]] + row_cells(def, row_of(tm, sorted[m]));
        assert(forall|i: int| 0 <= i < cells.len() ==> sep_free(#[trigger] cells[i], ','));
        lemma_split_join(cells);
    }
    assert(parsed.last() == Seq::<char>::empty());
}

} // verus!
