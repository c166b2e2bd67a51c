//! The streaming group-by engine: one row per distinct key, one accumulator
//! per (row, field), folded over the input lines.
//!
//! A table owns its immutable definition (index, fields, optional order-by)
//! and a key-to-row mapping kept as an insertion-ordered association list
//! with distinct keys. Each input line is parsed, its key and field values
//! extracted, and folded into the matching row; rows are created on first
//! sight of a key and never removed.

use vstd::prelude::*;

use crate::json::json_of;
use crate::log_record::{
    field_value_spec, lemma_field_value_wf, value_wf, values_view, Accessor, LogRecord,
    LogValueType, ValueModel,
};
use crate::operation::{
    build_operation, op_new_spec, op_update_spec, op_wf, Op, OpModel, OpType,
};

verus! {

/// One aggregated column: where its raw text comes from, and which
/// accumulator folds it.
pub struct Field {
    pub accessor: Accessor,
    pub op_type: OpType,
}

impl Field {
    pub fn new(accessor: Accessor, op_type: OpType) -> (r: Self)
        ensures
            r.accessor == accessor,
            r.op_type == op_type,
    {
        Self { accessor, op_type }
    }

    /// The field's display name.
    pub fn name(&self) -> (r: &str)
        ensures
            r@ == self.accessor.name@,
    {
        self.accessor.name.as_str()
    }
}

/// Where the grouping key of every record comes from.
pub struct Index {
    pub accessor: Accessor,
}

impl Index {
    pub fn new(accessor: Accessor) -> (r: Self)
        ensures
            r.accessor == accessor,
    {
        Self { accessor }
    }

    /// The key column's display name.
    pub fn name(&self) -> (r: &str)
        ensures
            r@ == self.accessor.name@,
    {
        self.accessor.name.as_str()
    }
}

/// The immutable schema driving aggregation and rendering: the index, the
/// fields in declared order, and an optional order-by hook.
pub struct TableDef {
    pub index: Index,
    pub fields: Vec<Field>,
    pub order_by: Option<Field>,
}

impl TableDef {
    pub fn new(index: Index, fields: Vec<Field>) -> (r: Self)
        ensures
            r.index == index,
            r.fields == fields,
            r.order_by is None,
    {
        Self { index, fields, order_by: None }
    }

    /// The accessors of all fields, in declared order.
    pub fn field_accessor(&self) -> (r: Vec<&Accessor>)
        ensures
            r@.len() == self.fields@.len(),
            forall|i: int| 0 <= i < r@.len() ==> *(#[trigger] r@[i]) == self.fields@[i].accessor,
    {
        let mut result: Vec<&Accessor> = Vec::new();
        let n = self.fields.len();
        let mut i: usize = 0;
        while i < n
            invariant
                n == self.fields@.len(),
                0 <= i <= n,
                result@.len() == i,
                forall|j: int| 0 <= j < i as int ==> *(#[trigger] result@[j]) == self.fields@[
                    j
                ].accessor,
            decreases n - i,
        {
            result.push(&self.fields[i].accessor);
            i = i + 1;
        }
        result
    }

    /// The accessor of the grouping key.
    pub fn key_accessor(&self) -> (r: &Accessor)
        ensures
            *r == self.index.accessor,
    {
        &self.index.accessor
    }

    /// How many fields the schema declares.
    pub fn field_num(&self) -> (r: usize)
        ensures
            r == self.fields@.len(),
    {
        self.fields.len()
    }
}

/// Model of a row: one optional accumulator state per declared field.
pub type RowModel = Seq<Option<OpModel>>;

/// Model of the key-to-row mapping, in insertion order.
pub type TableModel = Seq<(Seq<char>, RowModel)>;

/// The accumulator at a row position, or nothing where none exists yet
/// (positions past the row's length included).
pub open spec fn row_slot(row: RowModel, i: int) -> Option<OpModel> {
    if 0 <= i < row.len() {
        row[i]
    } else {
        None
    }
}

/// An existing accumulator state, or the fresh state of the configured
/// kind where none exists yet: lazy construction on first use.
pub open spec fn slot_or_new(slot: Option<OpModel>, t: OpType) -> OpModel {
    match slot {
        Some(o) => o,
        None => op_new_spec(t),
    }
}

/// One row after folding in one record: every declared field's accumulator,
/// created if need be, updated with that field's value.
pub open spec fn row_update_model(fields: Seq<Field>, row: RowModel, vals: Seq<ValueModel>)
    -> RowModel {
    Seq::new(
        fields.len(),
        |i: int| Some(op_update_spec(slot_or_new(row_slot(row, i), fields[i].op_type), vals[i])),
    )
}

/// The kind an accumulator state belongs to.
pub open spec fn op_kind(o: OpModel) -> OpType {
    match o {
        OpModel::Count(_) => OpType::Count,
        OpModel::Average(_, _) => OpType::Average,
    }
}

/// Model of a row's stored accumulators.
pub open spec fn row_model(r: TableRow) -> RowModel {
    Seq::new(
        r.values@.len(),
        |i: int|
            match r.values@[i] {
                Some(op) => Some(op@),
                None => None,
            },
    )
}

/// A row is sound for a field list: no more slots than fields, and every
/// present accumulator well-formed and of its field's configured kind.
pub open spec fn row_wf(fields: Seq<Field>, r: TableRow) -> bool {
    &&& r.values@.len() <= fields.len()
    &&& forall|i: int|
        0 <= i < r.values@.len() ==> match #[trigger] r.values@[i] {
            Some(op) => op_wf(op@) && op_kind(op@) == fields[i].op_type,
            None => true,
        }
}

/// One row of the table: the accumulators for the declared fields, in
/// declared order, each created lazily on its first update.
pub struct TableRow {
    pub values: Vec<Option<Op>>,
}

impl Default for TableRow {
    /// The default row is the empty one.
    fn default() -> (r: Self)
        ensures
            r.values@.len() == 0,
    {
        TableRow::new()
    }
}

impl TableRow {
    /// An empty row: no accumulator exists yet.
    pub fn new() -> (r: Self)
        ensures
            r.values@.len() == 0,
            row_model(r) == Seq::<Option<OpModel>>::empty(),
    {
        let r = Self { values: Vec::new() };
        proof {
            assert(row_model(r) =~= Seq::<Option<OpModel>>::empty());
        }
        r
    }

    /// Fold one record into this row: for every declared field, in order,
    /// update that field's accumulator (creating it on first use) with the
    /// record's value for the field.
    #[verifier::rlimit(25)]
    pub fn update(&mut self, record: &LogRecord, fields: &Vec<Field>)
        requires
            row_wf(fields@, *old(self)),
            record.values@.len() == fields@.len(),
            forall|i: int| 0 <= i < record.values@.len() ==> value_wf(#[trigger] record.values@[i]@),
        ensures
            row_wf(fields@, *final(self)),
            final(self).values@.len() == fields@.len(),
            row_model(*final(self)) == row_update_model(
                fields@,
                row_model(*old(self)),
                values_view(record.values@),
            ),
    {
        let ghost row0 = row_model(*old(self));
        let ghost vals = values_view(record.values@);
        let n = fields.len();
        let mut out: Vec<Option<Op>> = Vec::new();
        let mut j: usize = 0;
        while j < n
            invariant
                n == fields@.len(),
                0 <= j <= n,
                row0 == row_model(*old(self)),
                row0.len() == old(self).values@.len() <= n,
                vals == values_view(record.values@),
                record.values@.len() == n,
                forall|i: int|
                    0 <= i < record.values@.len() ==> value_wf(#[trigger] record.values@[i]@),
                // What is left of the original row: its slots from `j` on.
                self.values@.len() == (if j as int <= row0.len() {
                    row0.len() - j as int
                } else {
                    0int
                }),
                forall|i: int|
                    0 <= i < self.values@.len() ==> #[trigger] self.values@[i] == old(
                        self,
                    ).values@[i + j as int],
                forall|i: int|
                    0 <= i < self.values@.len() ==> match #[trigger] self.values@[i] {
                        Some(op) => op_wf(op@) && op_kind(op@) == fields@[i + j as int].op_type,
                        None => true,
                    },
                // What is already rebuilt: slots before `j`, updated.
                out@.len() == j,
                forall|i: int|
                    0 <= i < j as int ==> match #[trigger] out@[i] {
                        Some(op) => op@ == op_update_spec(
                            slot_or_new(row_slot(row0, i), fields@[i].op_type),
                            vals[i],
                        ) && op_wf(op@) && op_kind(op@) == fields@[i].op_type,
                        None => false,
                    },
            decreases n - j,
        {
            let prev: Option<Op> = if self.values.len() > 0 {
                self.values.remove(0)
            } else {
                None
            };
            let mut op: Op = match prev {
                Some(op) => op,
                None => build_operation(&fields[j].op_type),
            };
            proof {
                assert(op@ == slot_or_new(row_slot(row0, j as int), fields@[j as int].op_type));
                assert(op_kind(op_update_spec(op@, vals[j as int])) == op_kind(op@));
            }
            op.update(record.get(j));
            proof {
                assert(record.values@[j as int]@ == vals[j as int]);
            }
            out.push(Some(op));
            j = j + 1;
        }
        self.values = out;
        proof {
            assert(row_model(*self) =~= row_update_model(fields@, row0, vals));
        }
    }

    /// The value the accumulator at position `i` currently reports, or the
    /// missing marker where none exists.
    pub fn get(&self, fields: &Vec<Field>, i: usize) -> (r: crate::log_record::LogValue)
        requires
            row_wf(fields@, *self),
        ensures
            r@ == slot_value(row_slot(row_model(*self), i as int)),
    {
        if i < self.values.len() {
            match &self.values[i] {
                Some(op) => op.value(),
                None => crate::log_record::LogValue::Missing,
            }
        } else {
            crate::log_record::LogValue::Missing
        }
    }

    /// The reported value of every declared field, in declared order.
    pub fn get_row(&self, fields: &Vec<Field>) -> (r: Vec<crate::log_record::LogValue>)
        requires
            row_wf(fields@, *self),
        ensures
            r@.len() == fields@.len(),
            forall|i: int|
                0 <= i < r@.len() ==> (#[trigger] r@[i])@ == slot_value(
                    row_slot(row_model(*self), i),
                ),
    {
        let n = fields.len();
        let mut result: Vec<crate::log_record::LogValue> = Vec::new();
        let mut i: usize = 0;
        while i < n
            invariant
                n == fields@.len(),
                0 <= i <= n,
                row_wf(fields@, *self),
                result@.len() == i,
                forall|j: int|
                    0 <= j < i as int ==> (#[trigger] result@[j])@ == slot_value(
                        row_slot(row_model(*self), j),
                    ),
            decreases n - i,
        {
            result.push(self.get(fields, i));
            i = i + 1;
        }
        result
    }
}

/// What an accumulator slot reports: its value, or the missing marker
/// where the slot is still empty.
pub open spec fn slot_value(slot: Option<OpModel>) -> ValueModel {
    match slot {
        Some(o) => crate::operation::op_value_spec(o),
        None => ValueModel::Missing,
    }
}

/// Index of the first entry with the given key, or the mapping's length if
/// the key is new.
pub open spec fn find_key(tm: TableModel, key: Seq<char>) -> int
    decreases tm.len(),
{
    if tm.len() == 0 {
        0
    } else if tm[0].0 == key {
        0
    } else {
        1 + find_key(tm.drop_first(), key)
    }
}

/// Where the first matching key stands: none before it, a match at it
/// unless the key is new.
pub proof fn lemma_find_key(tm: TableModel, key: Seq<char>)
    ensures
        0 <= find_key(tm, key) <= tm.len(),
        forall|m: int| 0 <= m < find_key(tm, key) ==> (#[trigger] tm[m]).0 != key,
        find_key(tm, key) < tm.len() ==> tm[find_key(tm, key)].0 == key,
    decreases tm.len(),
{
    if tm.len() > 0 && tm[0].0 != key {
        lemma_find_key(tm.drop_first(), key);
        assert forall|m: int| 0 <= m < find_key(tm, key) implies (#[trigger] tm[m]).0 != key by {
            if m >= 1 {
                assert(tm.drop_first()[m - 1] == tm[m]);
            }
        }
        if find_key(tm, key) < tm.len() {
            assert(tm[find_key(tm, key)] == tm.drop_first()[find_key(tm, key) - 1]);
        }
    }
}

/// The key stands exactly where a match follows unmatched entries.
pub proof fn lemma_find_key_at(tm: TableModel, key: Seq<char>, j: int)
    requires
        0 <= j <= tm.len(),
        forall|m: int| 0 <= m < j ==> (#[trigger] tm[m]).0 != key,
        j < tm.len() ==> tm[j].0 == key,
    ensures
        find_key(tm, key) == j,
{
    lemma_find_key(tm, key);
    if find_key(tm, key) < j {
        assert(tm[find_key(tm, key)].0 == key);
    }
    if find_key(tm, key) > j {
        assert(tm[j].0 != key);
    }
}

/// The key a document yields, if its accessor resolves.
pub open spec fn record_key(def: TableDef, doc: crate::json::JsonModel) -> Option<Seq<char>> {
    crate::json::resolve_spec(doc, def.index.accessor.accessor.deep_view())
}

/// The typed value of every declared field of a document, in declared
/// order.
pub open spec fn record_values(def: TableDef, doc: crate::json::JsonModel) -> Seq<ValueModel> {
    Seq::new(
        def.fields@.len(),
        |i: int|
            field_value_spec(
                doc,
                def.fields@[i].accessor.accessor.deep_view(),
                def.fields@[i].accessor.dtype,
            ),
    )
}

/// One table after folding in one record: the key's row updated, created
/// first-seen where the key is new.
pub open spec fn table_update_model(
    def: TableDef,
    tm: TableModel,
    key: Seq<char>,
    vals: Seq<ValueModel>,
) -> TableModel {
    let j = find_key(tm, key);
    if j < tm.len() {
        tm.update(j, (key, row_update_model(def.fields@, tm[j].1, vals)))
    } else {
        tm.push((key, row_update_model(def.fields@, Seq::empty(), vals)))
    }
}

/// One table after one input line: unchanged where the line is not valid
/// JSON (the stream then halts) or where the key accessor does not resolve
/// (the record is dropped, never bucketed under a fabricated key).
pub open spec fn line_step(def: TableDef, tm: TableModel, line: Seq<char>) -> TableModel {
    match json_of(line) {
        None => tm,
        Some(doc) => match record_key(def, doc) {
            Some(key) => table_update_model(def, tm, key, record_values(def, doc)),
            None => tm,
        },
    }
}

/// The table after a whole stream of lines, halting at the first line that
/// is not valid JSON.
pub open spec fn table_fold(def: TableDef, tm: TableModel, lines: Seq<Seq<char>>) -> TableModel
    decreases lines.len(),
{
    if lines.len() == 0 {
        tm
    } else if json_of(lines[0]) is None {
        tm
    } else {
        table_fold(def, line_step(def, tm, lines[0]), lines.drop_first())
    }
}

/// Model of a table's key-to-row mapping.
pub open spec fn table_model(rows: Seq<(String, TableRow)>) -> TableModel {
    Seq::new(rows.len(), |i: int| (rows[i].0@, row_model(rows[i].1)))
}

/// The keys of a table, in insertion order.
pub open spec fn table_keys(tm: TableModel) -> Seq<Seq<char>> {
    Seq::new(tm.len(), |i: int| tm[i].0)
}

/// A sound table: every row full-length and well-formed for the schema,
/// and every key distinct.
pub open spec fn table_wf(t: Table) -> bool {
    &&& forall|i: int|
        0 <= i < t.rows@.len() ==> row_wf(t.definition.fields@, (#[trigger] t.rows@[i]).1)
    &&& forall|i: int, j: int|
        0 <= i < j < t.rows@.len() ==> t.rows@[i].0@ != t.rows@[j].0@
}

/// The aggregation table: the schema, the key-to-row mapping in insertion
/// order, and the explicit rendering order once computed.
pub struct Table {
    pub definition: TableDef,
    pub rows: Vec<(String, TableRow)>,
    pub order: Option<Vec<String>>,
}

impl Table {
    /// An empty table for a schema.
    pub fn new(definition: TableDef) -> (r: Self)
        ensures
            r.definition == definition,
            r.rows@.len() == 0,
            r.order is None,
            table_wf(r),
            table_model(r.rows@) == Seq::<(Seq<char>, RowModel)>::empty(),
    {
        let r = Self { definition, rows: Vec::new(), order: None };
        proof {
            assert(table_model(r.rows@) =~= Seq::<(Seq<char>, RowModel)>::empty());
        }
        r
    }

    /// Fold one input line into the table. Returns whether the line was
    /// valid JSON; on an invalid line the table is unchanged and the caller
    /// is expected to halt the stream.
    #[verifier::rlimit(25)]
    pub fn aggregate_line(&mut self, line: &str) -> (ok: bool)
        requires
            table_wf(*old(self)),
        ensures
            table_wf(*final(self)),
            final(self).definition == old(self).definition,
            final(self).order == old(self).order,
            table_model(final(self).rows@) == line_step(
                old(self).definition,
                table_model(old(self).rows@),
                line@,
            ),
            ok == (json_of(line@) is Some),
    {
        let ghost tm0 = table_model(old(self).rows@);
        let fields_acc = self.definition.field_accessor();
        let record = match LogRecord::parse(line, self.definition.key_accessor(), &fields_acc) {
            Some(r) => r,
            None => {
                return false;
            },
        };
        let ghost doc = json_of(line@)->Some_0;
        proof {
            assert forall|i: int| 0 <= i < record.values@.len() implies value_wf(
                #[trigger] record.values@[i]@,
            ) by {
                lemma_field_value_wf(
                    doc,
                    self.definition.fields@[i].accessor.accessor.deep_view(),
                    self.definition.fields@[i].accessor.dtype,
                );
            }
            assert(values_view(record.values@) =~= record_values(self.definition, doc));
        }
        let key: String = match &record.key {
            Some(k) => k.clone(),
            None => {
                return true;
            },
        };
        let ghost vals = record_values(self.definition, doc);

        // Look the key up among the existing rows.
        let n = self.rows.len();
        let mut i: usize = 0;
        while i < n
            invariant
                table_wf(*self),
                *self == *old(self),
                n == self.rows@.len(),
                0 <= i <= n,
                tm0 == table_model(self.rows@),
                forall|m: int| 0 <= m < i as int ==> (#[trigger] self.rows@[m]).0@ != key@,
                record.values@.len() == self.definition.fields@.len(),
                forall|m: int|
                    0 <= m < record.values@.len() ==> value_wf(#[trigger] record.values@[m]@),
                vals == values_view(record.values@),
                json_of(line@) == Some(doc),
                record_key(self.definition, doc) == Some(key@),
                vals == record_values(self.definition, doc),
            decreases n - i,
        {
            if self.rows[i].0.eq(&key) {
                proof {
                    assert forall|m: int| 0 <= m < i as int implies (#[trigger] tm0[m]).0
                        != key@ by {
                        assert(tm0[m].0 == self.rows@[m].0@);
                    }
                    lemma_find_key_at(tm0, key@, i as int);
                    assert(row_wf(self.definition.fields@, self.rows@[i as int].1));
                }
                let mut entry = self.rows.remove(i);
                entry.1.update(&record, &self.definition.fields);
                self.rows.insert(i, entry);
                proof {
                    assert(self.rows@ =~= old(self).rows@.update(
                        i as int,
                        (old(self).rows@[i as int].0, entry.1),
                    ));
                    assert(row_model(entry.1) == row_update_model(
                        self.definition.fields@,
                        tm0[i as int].1,
                        vals,
                    ));
                    assert(self.rows@[i as int].0@ == key@);
                    assert(table_model(self.rows@) =~~= table_update_model(
                        self.definition,
                        tm0,
                        key@,
                        vals,
                    ));
                    assert forall|p: int, q: int|
                        0 <= p < q < self.rows@.len() implies self.rows@[p].0@
                        != self.rows@[q].0@ by {
                        assert(self.rows@[p].0 == old(self).rows@[p].0);
                        assert(self.rows@[q].0 == old(self).rows@[q].0);
                    }
                }
                return true;
            }
            i = i + 1;
        }
        proof {
            assert forall|m: int| 0 <= m < n as int implies (#[trigger] tm0[m]).0 != key@ by {
                assert(tm0[m].0 == self.rows@[m].0@);
            }
            lemma_find_key_at(tm0, key@, n as int);
        }
        let mut row = TableRow::new();
        row.update(&record, &self.definition.fields);
        self.rows.push((key, row));
        proof {
            assert(table_model(self.rows@) =~~= table_update_model(
                self.definition,
                tm0,
                key@,
                vals,
            ));
        }
        true
    }

    /// Fold a stream of lines into the table, halting at the first line
    /// that is not valid JSON; everything accumulated so far stands.
    pub fn aggregate(&mut self, lines: &Vec<String>)
        requires
            table_wf(*old(self)),
        ensures
            table_wf(*final(self)),
            final(self).definition == old(self).definition,
            final(self).order == old(self).order,
            table_model(final(self).rows@) == table_fold(
                old(self).definition,
                table_model(old(self).rows@),
                lines.deep_view(),
            ),
    {
        let ghost tm0 = table_model(old(self).rows@);
        let ghost lv = lines.deep_view();
        proof {
            assert(lv.skip(0) =~= lv);
        }
        let n = lines.len();
        let mut k: usize = 0;
        let mut halted = false;
        while k < n && !halted
            invariant
                table_wf(*self),
                self.definition == old(self).definition,
                self.order == old(self).order,
                n == lines@.len(),
                lv == lines.deep_view(),
                lv.len() == n,
                0 <= k <= n,
                table_fold(self.definition, tm0, lv) == table_fold(
                    self.definition,
                    table_model(self.rows@),
                    lv.skip(k as int),
                ),
                halted ==> table_fold(self.definition, table_model(self.rows@), lv.skip(k as int))
                    == table_model(self.rows@),
            decreases n - k + (if halted {
                0int
            } else {
                1int
            }),
        {
            let ghost tm_before = table_model(self.rows@);
            let ok = self.aggregate_line(lines[k].as_str());
            proof {
                assert(lines@[k as int]@ == lv[k as int]);
                assert(lv.skip(k as int)[0] == lv[k as int]);
                assert(lv.skip(k as int).drop_first() =~= lv.skip(k as int + 1));
            }
            if ok {
                k = k + 1;
            } else {
                halted = true;
            }
        }
    }

    /// Fix the rendering order of the finalized table: ascending
    /// lexicographic by key. The order-by hook of the definition has no
    /// comparator yet, so when it is set the sort falls back to
    /// lexicographic key order explicitly rather than ignore it silently.
    pub fn sort(&mut self)
        ensures
            final(self).definition == old(self).definition,
            final(self).rows == old(self).rows,
            final(self).order matches Some(o) && o.deep_view() == crate::order::sort_keys(
                table_keys(table_model(old(self).rows@)),
            ),
    {
        let ghost tm = table_model(self.rows@);
        let mut keys: Vec<String> = Vec::new();
        let n = self.rows.len();
        let mut i: usize = 0;
        while i < n
            invariant
                n == self.rows@.len(),
                0 <= i <= n,
                *self == *old(self),
                tm == table_model(self.rows@),
                keys@.len() == i,
                forall|j: int| 0 <= j < i as int ==> (#[trigger] keys@[j])@ == self.rows@[j].0@,
            decreases n - i,
        {
            keys.push(self.rows[i].0.clone());
            i = i + 1;
        }
        proof {
            assert(keys.deep_view() =~= table_keys(tm));
        }
        // The order-by hook carries no comparator yet: fall back to
        // lexicographic key order explicitly rather than ignore it.
        let sorted = if self.definition.order_by.is_some() {
            crate::order::sort_strings(&keys)
        } else {
            crate::order::sort_strings(&keys)
        };
        self.order = Some(sorted);
    }
}

} // verus!
