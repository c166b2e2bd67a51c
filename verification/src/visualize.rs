//! Deterministic rendering of a finalized table as delimited text or a
//! fixed-width aligned table.
//!
//! Both renderers are pure functions of the definition and the table
//! contents: rows are emitted in ascending lexicographic key order, enforced
//! by an explicit sort, so rendering the same finalized table twice yields
//! byte-identical output. Column widths of the aligned format are derived
//! from the headers alone (at least ten characters each); a wider data cell
//! extends its row rather than being truncated. Embedded delimiters are not
//! escaped.

use vstd::prelude::*;

use crate::aggregate::{
    find_key, lemma_find_key_at, row_model, row_slot, slot_value, table_keys, table_model,
    table_wf, RowModel, Table, TableDef, TableModel,
};
use crate::log_record::display_str;
use crate::order::{lemma_sort_keys_props, sort_keys, sort_strings};

verus! {

/// Which output format to render.
pub enum VisualizeType {
    Csv,
    Markdown,
}

/// The display names of the declared fields, in order.
pub open spec fn field_names(def: TableDef) -> Seq<Seq<char>> {
    Seq::new(def.fields@.len(), |i: int| def.fields@[i].accessor.name@)
}

/// The header cells: the index name, then every field name.
pub open spec fn header_cells(def: TableDef) -> Seq<Seq<char>> {
    seq![def.index.accessor.name@] + field_names(def)
}

/// The row stored for a key, or an empty row for an unknown key.
pub open spec fn row_of(tm: TableModel, key: Seq<char>) -> RowModel {
    if find_key(tm, key) < tm.len() {
        tm[find_key(tm, key)].1
    } else {
        Seq::empty()
    }
}

/// A row's display cells: each field's reported value, rendered.
pub open spec fn row_cells(def: TableDef, row: RowModel) -> Seq<Seq<char>> {
    Seq::new(def.fields@.len(), |i: int| display_str(slot_value(row_slot(row, i))))
}

/// Cells after the first, each preceded by a comma.
pub open spec fn tail_comma(cells: Seq<Seq<char>>) -> Seq<char>
    decreases cells.len(),
{
    if cells.len() == 0 {
        Seq::empty()
    } else {
        tail_comma(cells.drop_last()) + seq![','] + cells.last()
    }
}

/// Cells joined with commas.
pub open spec fn join_comma(cells: Seq<Seq<char>>) -> Seq<char> {
    if cells.len() == 0 {
        Seq::empty()
    } else {
        cells[0] + tail_comma(cells.drop_first())
    }
}

/// One delimited output line.
pub open spec fn csv_line(cells: Seq<Seq<char>>) -> Seq<char> {
    join_comma(cells) + seq!['\n']
}

/// The delimited lines of the given keys' rows, in the given order.
pub open spec fn csv_rows_str(def: TableDef, tm: TableModel, keys: Seq<Seq<char>>) -> Seq<char>
    decreases keys.len(),
{
    if keys.len() == 0 {
        Seq::empty()
    } else {
        csv_rows_str(def, tm, keys.drop_last()) + csv_line(
            seq![keys.last()] + row_cells(def, row_of(tm, keys.last())),
        )
    }
}

/// The whole delimited rendering: a header line, then one line per row in
/// ascending lexicographic key order.
pub open spec fn csv_str(def: TableDef, tm: TableModel) -> Seq<char> {
    csv_line(header_cells(def)) + csv_rows_str(def, tm, sort_keys(table_keys(tm)))
}

/// `n` spaces (none for `n <= 0`).
pub open spec fn spaces(n: int) -> Seq<char>
    decreases n,
{
    if n <= 0 {
        Seq::empty()
    } else {
        spaces(n - 1).push(' ')
    }
}

/// `n` dashes (none for `n <= 0`).
pub open spec fn dashes(n: int) -> Seq<char>
    decreases n,
{
    if n <= 0 {
        Seq::empty()
    } else {
        dashes(n - 1).push('-')
    }
}

/// Text padded with spaces on the right up to the column width; wider text
/// is kept whole.
pub open spec fn pad_right_str(s: Seq<char>, w: int) -> Seq<char> {
    s + spaces(w - s.len())
}

/// Text padded with spaces on the left up to the column width; wider text
/// is kept whole.
pub open spec fn pad_left_str(s: Seq<char>, w: int) -> Seq<char> {
    spaces(w - s.len()) + s
}

/// The width of column `i` (the key column is column zero): at least ten
/// characters, and at least the header text — never the data.
pub open spec fn col_width(def: TableDef, i: int) -> int {
    let name_len = if i == 0 {
        def.index.accessor.name@.len() as int
    } else {
        def.fields@[i - 1].accessor.name@.len() as int
    };
    if name_len > 10 {
        name_len
    } else {
        10
    }
}

/// The first `n` field header cells of the aligned format, each left
/// aligned and closed with a bar.
pub open spec fn md_header_cells(def: TableDef, n: int) -> Seq<char>
    decreases n,
{
    if n <= 0 {
        Seq::empty()
    } else {
        md_header_cells(def, n - 1) + pad_right_str(field_names(def)[n - 1], col_width(def, n))
            + seq!['|']
    }
}

/// The aligned header line.
pub open spec fn md_header(def: TableDef) -> Seq<char> {
    seq!['|'] + pad_right_str(def.index.accessor.name@, col_width(def, 0)) + seq!['|']
        + md_header_cells(def, def.fields@.len() as int) + seq!['\n']
}

/// The first `n` columns of the separator line.
pub open spec fn md_separator_cells(def: TableDef, n: int) -> Seq<char>
    decreases n,
{
    if n <= 0 {
        Seq::empty()
    } else {
        md_separator_cells(def, n - 1) + seq!['|', ':'] + dashes(col_width(def, n - 1) - 1)
    }
}

/// The dashed separator line between header and data, emitted once.
pub open spec fn md_separator(def: TableDef) -> Seq<char> {
    md_separator_cells(def, def.fields@.len() as int + 1) + seq!['|', '\n']
}

/// The first `n` data cells of one aligned row, each right aligned and
/// closed with a bar.
pub open spec fn md_row_cells(def: TableDef, row: RowModel, n: int) -> Seq<char>
    decreases n,
{
    if n <= 0 {
        Seq::empty()
    } else {
        md_row_cells(def, row, n - 1) + pad_left_str(
            display_str(slot_value(row_slot(row, n - 1))),
            col_width(def, n),
        ) + seq!['|']
    }
}

/// One aligned data line: the key left aligned, each cell right aligned.
pub open spec fn md_row_line(def: TableDef, tm: TableModel, key: Seq<char>) -> Seq<char> {
    seq!['|'] + pad_right_str(key, col_width(def, 0)) + seq!['|'] + md_row_cells(
        def,
        row_of(tm, key),
        def.fields@.len() as int,
    ) + seq!['\n']
}

/// The aligned lines of the given keys' rows, in the given order.
pub open spec fn md_rows_str(def: TableDef, tm: TableModel, keys: Seq<Seq<char>>) -> Seq<char>
    decreases keys.len(),
{
    if keys.len() == 0 {
        Seq::empty()
    } else {
        md_rows_str(def, tm, keys.drop_last()) + md_row_line(def, tm, keys.last())
    }
}

/// The whole aligned rendering: header, one separator, then one line per
/// row in ascending lexicographic key order.
pub open spec fn markdown_str(def: TableDef, tm: TableModel) -> Seq<char> {
    md_header(def) + md_separator(def) + md_rows_str(def, tm, sort_keys(table_keys(tm)))
}

/// Pad text with spaces on the right up to `width` characters.
pub fn format_string(s: &str, width: usize) -> (r: String)
    ensures
        r@ == pad_right_str(s@, width as int),
{
    let mut r = s.to_owned();
    let mut c = s.unicode_len();
    proof {
        reveal_strlit(" ");
    }
    while c < width
        invariant
            c >= s@.len(),
            c <= width || c == s@.len(),
            r@ == s@ + spaces(c as int - s@.len()),
            " "@ == seq![' '],
        decreases width - c,
    {
        r.append(" ");
        c = c + 1;
        proof {
            assert(r@ =~= s@ + spaces(c as int - s@.len()));
        }
    }
    proof {
        assert(r@ =~= pad_right_str(s@, width as int));
    }
    r
}

/// One data cell of the aligned format: the value's canonical display
/// text, right aligned in its column.
fn format_log_value(v: &crate::log_record::LogValue, width: usize) -> (r: String)
    ensures
        r@ == pad_left_str(display_str(v@), width as int),
{
    let cell = v.as_string();
    pad_left(&cell, width)
}

/// Pad text with spaces on the left up to `width` characters.
fn pad_left(s: &String, width: usize) -> (r: String)
    ensures
        r@ == pad_left_str(s@, width as int),
{
    let n = s.as_str().unicode_len();
    let mut r = String::new();
    let mut c = n;
    proof {
        reveal_strlit(" ");
    }
    while c < width
        invariant
            c >= n == s@.len(),
            c <= width || c == s@.len(),
            r@ == spaces(c as int - s@.len()),
            " "@ == seq![' '],
        decreases width - c,
    {
        r.append(" ");
        c = c + 1;
        proof {
            assert(r@ =~= spaces(c as int - s@.len()));
        }
    }
    r.append(s.as_str());
    proof {
        assert(r@ =~= pad_left_str(s@, width as int));
    }
    r
}

/// Join cells with commas.
fn join_cells(cells: &Vec<String>) -> (r: String)
    ensures
        r@ == join_comma(cells.deep_view()),
{
    let mut s = String::new();
    if cells.len() == 0 {
        return s;
    }
    s.append(cells[0].as_str());
    let n = cells.len();
    let mut i: usize = 1;
    proof {
        reveal_strlit(",");
        assert(s@ =~= cells.deep_view()[0] + tail_comma(cells.deep_view().subrange(1, 1)));
    }
    while i < n
        invariant
            n == cells@.len(),
            1 <= i <= n,
            ","@ == seq![','],
            s@ == cells.deep_view()[0] + tail_comma(cells.deep_view().subrange(1, i as int)),
        decreases n - i,
    {
        s.append(",");
        s.append(cells[i].as_str());
        proof {
            let dv = cells.deep_view();
            assert(dv.subrange(1, i + 1).drop_last() =~= dv.subrange(1, i as int));
            assert(dv.subrange(1, i + 1).last() == dv[i as int]);
            assert(s@ =~= dv[0] + tail_comma(dv.subrange(1, i + 1)));
        }
        i = i + 1;
    }
    proof {
        assert(cells.deep_view().subrange(1, n as int) =~= cells.deep_view().drop_first());
    }
    s
}

/// Index of the row holding a key known to be in the table.
fn find_row_index(table: &Table, key: &String) -> (r: usize)
    requires
        table_wf(*table),
        table_keys(table_model(table.rows@)).contains(key@),
    ensures
        r < table.rows@.len(),
        find_key(table_model(table.rows@), key@) == r as int,
        table_model(table.rows@)[r as int].0 == key@,
{
    let ghost tm = table_model(table.rows@);
    let n = table.rows.len();
    let mut i: usize = 0;
    while i < n
        invariant
            n == table.rows@.len(),
            0 <= i <= n,
            tm == table_model(table.rows@),
            forall|m: int| 0 <= m < i as int ==> (#[trigger] tm[m]).0 != key@,
        decreases n - i,
    {
        if table.rows[i].0.eq(key) {
            proof {
                lemma_find_key_at(tm, key@, i as int);
            }
            return i;
        }
        proof {
            assert(tm[i as int].0 == table.rows@[i as int].0@);
        }
        i = i + 1;
    }
    proof {
        let q = choose|q: int|
            0 <= q < table_keys(tm).len() && table_keys(tm)[q] == key@;
        assert(tm[q].0 == key@);
        assert(false);
    }
    0
}

/// The sorted keys of a table, ascending lexicographic.
fn sorted_table_keys(table: &Table) -> (r: Vec<String>)
    ensures
        r.deep_view() == sort_keys(table_keys(table_model(table.rows@))),
{
    let ghost tm = table_model(table.rows@);
    let mut keys: Vec<String> = Vec::new();
    let n = table.rows.len();
    let mut i: usize = 0;
    while i < n
        invariant
            n == table.rows@.len(),
            0 <= i <= n,
            tm == table_model(table.rows@),
            keys@.len() == i,
            forall|j: int| 0 <= j < i as int ==> (#[trigger] keys@[j])@ == table.rows@[j].0@,
        decreases n - i,
    {
        keys.push(table.rows[i].0.clone());
        i = i + 1;
    }
    proof {
        assert(keys.deep_view() =~= table_keys(tm));
    }
    sort_strings(&keys)
}

/// Render the finalized table as delimited text: a comma-joined header of
/// the index name and every field name, then one comma-joined line per row
/// in ascending lexicographic key order, each cell its value's canonical
/// display text. Embedded delimiters are not escaped.
#[verifier::rlimit(25)]
pub fn display_as_csv(table: &Table) -> (r: String)
    requires
        table_wf(*table),
    ensures
        r@ == csv_str(table.definition, table_model(table.rows@)),
{
    let ghost tm = table_model(table.rows@);
    let ghost def = table.definition;

    // Header: index name, then every field name.
    let mut cells: Vec<String> = Vec::new();
    cells.push(table.definition.index.accessor.name.clone());
    let nf = table.definition.fields.len();
    let mut i: usize = 0;
    while i < nf
        invariant
            nf == table.definition.fields@.len(),
            0 <= i <= nf,
            def == table.definition,
            cells@.len() == i + 1,
            cells@[0]@ == table.definition.index.accessor.name@,
            forall|j: int|
                1 <= j < cells@.len() ==> (#[trigger] cells@[j])@ == table.definition.fields@[
                    j - 1
                ].accessor.name@,
        decreases nf - i,
    {
        cells.push(table.definition.fields[i].accessor.name.clone());
        i = i + 1;
    }
    proof {
        assert(cells.deep_view() =~= header_cells(def));
    }
    let mut out = join_cells(&cells);
    out.append("\n");
    proof {
        reveal_strlit("\n");
        assert(out@ =~= csv_line(header_cells(def)));
    }

    // One line per row, in ascending lexicographic key order.
    let sorted = sorted_table_keys(table);
    proof {
        lemma_sort_keys_props(table_keys(tm));
    }
    let nk = sorted.len();
    let mut k: usize = 0;
    while k < nk
        invariant
            table_wf(*table),
            tm == table_model(table.rows@),
            def == table.definition,
            nk == sorted@.len(),
            0 <= k <= nk,
            sorted.deep_view() == sort_keys(table_keys(tm)),
            forall|m: int|
                0 <= m < sorted.deep_view().len() ==> table_keys(tm).contains(
                    #[trigger] sorted.deep_view()[m],
                ),
            out@ == csv_line(header_cells(def)) + csv_rows_str(
                def,
                tm,
                sort_keys(table_keys(tm)).subrange(0, k as int),
            ),
        decreases nk - k,
    {
        let key = &sorted[k];
        proof {
            assert(sorted.deep_view()[k as int] == key@);
        }
        let j = find_row_index(table, key);
        let ghost row = row_of(tm, key@);
        proof {
            assert(row == row_model(table.rows@[j as int].1));
            assert(crate::aggregate::row_wf(
                table.definition.fields@,
                table.rows@[j as int].1,
            ));
        }
        let mut cells: Vec<String> = Vec::new();
        cells.push(key.clone());
        let vals = table.rows[j].1.get_row(&table.definition.fields);
        let nv = vals.len();
        let mut v: usize = 0;
        while v < nv
            invariant
                nv == vals@.len() == def.fields@.len(),
                0 <= v <= nv,
                forall|m: int|
                    0 <= m < vals@.len() ==> (#[trigger] vals@[m])@ == slot_value(
                        row_slot(row, m),
                    ),
                cells@.len() == v + 1,
                cells@[0]@ == key@,
                forall|m: int|
                    1 <= m < cells@.len() ==> (#[trigger] cells@[m])@ == display_str(
                        slot_value(row_slot(row, m - 1)),
                    ),
            decreases nv - v,
        {
            cells.push(vals[v].as_string());
            v = v + 1;
        }
        proof {
            assert(cells.deep_view() =~= seq![key@] + row_cells(def, row));
        }
        let line = join_cells(&cells);
        out.append(line.as_str());
        out.append("\n");
        proof {
            reveal_strlit("\n");
            let ks = sort_keys(table_keys(tm));
            assert(ks.subrange(0, k + 1).drop_last() =~= ks.subrange(0, k as int));
            assert(ks.subrange(0, k + 1).last() == ks[k as int]);
            assert(out@ =~= csv_line(header_cells(def)) + csv_rows_str(
                def,
                tm,
                ks.subrange(0, k + 1),
            ));
        }
        k = k + 1;
    }
    proof {
        let ks = sort_keys(table_keys(tm));
        assert(ks.subrange(0, ks.len() as int) =~= ks);
    }
    out
}

/// The executable width of column `i`.
fn col_width_exec(def: &TableDef, i: usize) -> (w: usize)
    requires
        i <= def.fields@.len(),
    ensures
        w as int == col_width(*def, i as int),
{
    let l = if i == 0 {
        def.index.accessor.name.as_str().unicode_len()
    } else {
        def.fields[i - 1].accessor.name.as_str().unicode_len()
    };
    if l > 10 {
        l
    } else {
        10
    }
}

/// Append one separator column: a bar, a colon, and width-minus-one dashes.
fn append_sep_col(out: &mut String, w: usize)
    ensures
        final(out)@ == old(out)@ + seq!['|', ':'] + dashes(w as int - 1),
{
    proof {
        reveal_strlit("|");
        reveal_strlit(":");
        reveal_strlit("-");
    }
    out.append("|");
    out.append(":");
    let ghost dash_start = out@;
    let mut d: usize = 1;
    while d < w
        invariant
            1 <= d,
            d <= w || d == 1,
            "-"@ == seq!['-'],
            out@ == dash_start + dashes(d as int - 1),
        decreases w - d,
    {
        out.append("-");
        proof {
            assert(out@ =~= dash_start + dashes(d as int));
        }
        d = d + 1;
    }
    proof {
        assert(out@ =~= old(out)@ + seq!['|', ':'] + dashes(w as int - 1));
    }
}

/// Render the finalized table as a fixed-width aligned table: a header and
/// key column left aligned, data cells right aligned, one dashed separator
/// line, rows in ascending lexicographic key order. Column widths come from
/// the headers alone (at least ten characters); a wider data cell extends
/// its row.
#[verifier::rlimit(25)]
pub fn display_as_markdown(table: &Table) -> (r: String)
    requires
        table_wf(*table),
    ensures
        r@ == markdown_str(table.definition, table_model(table.rows@)),
{
    let ghost tm = table_model(table.rows@);
    let ghost def = table.definition;
    let nf = table.definition.fields.len();

    // Header line.
    let mut out = String::new();
    out.append("|");
    proof {
        reveal_strlit("|");
        reveal_strlit("\n");
        reveal_strlit(":");
        reveal_strlit("-");
        reveal_strlit(" ");
    }
    let w0 = {
        let l = table.definition.index.accessor.name.as_str().unicode_len();
        if l > 10 {
            l
        } else {
            10
        }
    };
    let padded = format_string(table.definition.index.accessor.name.as_str(), w0);
    out.append(padded.as_str());
    out.append("|");
    proof {
        assert(w0 as int == col_width(def, 0));
        assert(out@ =~= seq!['|'] + pad_right_str(def.index.accessor.name@, col_width(def, 0))
            + seq!['|']);
    }
    let ghost header_prefix = out@;
    let mut i: usize = 0;
    while i < nf
        invariant
            nf == table.definition.fields@.len(),
            0 <= i <= nf,
            def == table.definition,
            "|"@ == seq!['|'],
            out@ == header_prefix + md_header_cells(def, i as int),
            header_prefix == seq!['|'] + pad_right_str(def.index.accessor.name@, col_width(def, 0))
                + seq!['|'],
        decreases nf - i,
    {
        let name = &table.definition.fields[i].accessor.name;
        let l = name.as_str().unicode_len();
        let w = if l > 10 {
            l
        } else {
            10
        };
        proof {
            assert(w as int == col_width(def, i + 1));
            assert(field_names(def)[i as int] == name@);
        }
        let padded = format_string(name.as_str(), w);
        out.append(padded.as_str());
        out.append("|");
        proof {
            assert(out@ =~= header_prefix + md_header_cells(def, i + 1));
        }
        i = i + 1;
    }
    out.append("\n");
    proof {
        assert(out@ =~= md_header(def));
    }
    let ghost done_header = out@;

    // Separator line.
    let w0sep = col_width_exec(&table.definition, 0);
    append_sep_col(&mut out, w0sep);
    proof {
        assert(md_separator_cells(def, 0) == Seq::<char>::empty());
        assert(out@ =~= done_header + md_separator_cells(def, 1));
    }
    let mut c: usize = 0;
    while c < nf
        invariant
            nf == table.definition.fields@.len(),
            0 <= c <= nf,
            def == table.definition,
            done_header == md_header(def),
            out@ == done_header + md_separator_cells(def, c as int + 1),
        decreases nf - c,
    {
        let w = col_width_exec(&table.definition, c + 1);
        append_sep_col(&mut out, w);
        proof {
            assert(out@ =~= done_header + md_separator_cells(def, c as int + 2));
        }
        c = c + 1;
    }
    out.append("|");
    out.append("\n");
    proof {
        reveal_strlit("|");
        reveal_strlit("\n");
        assert(out@ =~= md_header(def) + md_separator(def));
    }
    let ghost done_sep = out@;

    // One line per row, in ascending lexicographic key order.
    let sorted = sorted_table_keys(table);
    proof {
        lemma_sort_keys_props(table_keys(tm));
    }
    let nk = sorted.len();
    let mut k: usize = 0;
    while k < nk
        invariant
            table_wf(*table),
            tm == table_model(table.rows@),
            def == table.definition,
            nf == table.definition.fields@.len(),
            nk == sorted@.len(),
            0 <= k <= nk,
            "|"@ == seq!['|'],
            sorted.deep_view() == sort_keys(table_keys(tm)),
            forall|m: int|
                0 <= m < sorted.deep_view().len() ==> table_keys(tm).contains(
                    #[trigger] sorted.deep_view()[m],
                ),
            done_sep == md_header(def) + md_separator(def),
            out@ == done_sep + md_rows_str(def, tm, sort_keys(table_keys(tm)).subrange(
                0,
                k as int,
            )),
        decreases nk - k,
    {
        let key = &sorted[k];
        proof {
            assert(sorted.deep_view()[k as int] == key@);
        }
        let j = find_row_index(table, key);
        let ghost row = row_of(tm, key@);
        proof {
            assert(row == row_model(table.rows@[j as int].1));
            assert(crate::aggregate::row_wf(
                table.definition.fields@,
                table.rows@[j as int].1,
            ));
        }
        let ghost line_start = out@;
        out.append("|");
        let w0 = {
            let l = table.definition.index.accessor.name.as_str().unicode_len();
            if l > 10 {
                l
            } else {
                10
            }
        };
        let padded_key = format_string(key.as_str(), w0);
        out.append(padded_key.as_str());
        out.append("|");
        proof {
            assert(w0 as int == col_width(def, 0));
        }
        let ghost line_prefix = out@;
        let vals = table.rows[j].1.get_row(&table.definition.fields);
        let nv = vals.len();
        let mut v: usize = 0;
        while v < nv
            invariant
                nv == vals@.len() == def.fields@.len(),
                0 <= v <= nv,
                def == table.definition,
                "|"@ == seq!['|'],
                forall|m: int|
                    0 <= m < vals@.len() ==> (#[trigger] vals@[m])@ == slot_value(
                        row_slot(row, m),
                    ),
                out@ == line_prefix + md_row_cells(def, row, v as int),
            decreases nv - v,
        {
            let w = {
                let nl = table.definition.fields[v].accessor.name.as_str().unicode_len();
                if nl > 10 {
                    nl
                } else {
                    10
                }
            };
            proof {
                assert(w as int == col_width(def, v + 1));
            }
            let padded = format_log_value(&vals[v], w);
            out.append(padded.as_str());
            out.append("|");
            proof {
                assert(out@ =~= line_prefix + md_row_cells(def, row, v + 1));
            }
            v = v + 1;
        }
        out.append("\n");
        proof {
            reveal_strlit("\n");
            let ks = sort_keys(table_keys(tm));
            assert(line_prefix =~= line_start + (seq!['|'] + pad_right_str(
                key@,
                col_width(def, 0),
            ) + seq!['|']));
            assert(out@ =~= line_start + md_row_line(def, tm, key@));
            assert(ks.subrange(0, k + 1).drop_last() =~= ks.subrange(0, k as int));
            assert(ks.subrange(0, k + 1).last() == ks[k as int]);
            assert(out@ =~= done_sep + md_rows_str(def, tm, ks.subrange(0, k + 1)));
        }
        k = k + 1;
    }
    proof {
        let ks = sort_keys(table_keys(tm));
        assert(ks.subrange(0, ks.len() as int) =~= ks);
    }
    out
}

} // verus!
