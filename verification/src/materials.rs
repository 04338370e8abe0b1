use vstd::prelude::*;

use crate::csv::{lemma_record_fields_push_plain, record_fields, split_record_chars, string_views};
use crate::text::{
    chars_of, lemma_lines_final_newline, lemma_trim_push_cr, lines, split_lines, string_from_chars,
    strip_cr, trim, trim_bounds,
};

pub use crate::csv::split_csv_record;
pub use crate::ppm::{parse_ppm_color, parse_ppm_usize, ppm_tokens};

verus! {

/// The first position at or after `i` where `cols` holds `name`.
pub open spec fn position_from(cols: Seq<Seq<char>>, name: Seq<char>, i: int) -> Option<int>
    decreases cols.len() - i,
{
    if i < 0 || i >= cols.len() {
        None
    } else if cols[i] == name {
        Some(i)
    } else {
        position_from(cols, name, i + 1)
    }
}

/// The first position where `cols` holds `name`.
pub open spec fn column_position(cols: Seq<Seq<char>>, name: Seq<char>) -> Option<int> {
    position_from(cols, name, 0)
}

/// The index of the first column named `name`, if any.
pub fn find_column(columns: &Vec<String>, name: &str) -> (r: Option<usize>)
    ensures
        match r {
            Some(i) => column_position(string_views(columns@), name@) == Some(i as int),
            None => column_position(string_views(columns@), name@) is None,
        },
        match r {
            Some(i) => i < columns.len() && columns@[i as int]@ == name@ && forall|j: int|
                0 <= j < i ==> columns@[j]@ != name@,
            None => forall|j: int| 0 <= j < columns.len() ==> columns@[j]@ != name@,
        },
{
    let ghost cols = string_views(columns@);
    let target = name.to_owned();
    let mut i: usize = 0;
    while i < columns.len()
        invariant
            i <= columns.len(),
            cols == string_views(columns@),
            target@ == name@,
            position_from(cols, name@, i as int) == column_position(cols, name@),
            forall|j: int| 0 <= j < i ==> columns@[j]@ != name@,
        decreases columns.len() - i,
    {
        assert(cols[i as int] == columns@[i as int]@);
        if columns[i] == target {
            return Some(i);
        }
        i = i + 1;
    }
    None
}

/// A column that a material-property table must have.
#[derive(Clone, Copy, Debug, PartialEq, Eq, Structural)]
pub enum CatalogColumn {
    MaterialId,
    PWaveVelocity,
}

/// Why a material-property table was refused.
#[derive(Clone, Copy, Debug, PartialEq, Eq, Structural)]
pub enum CatalogError {
    /// The text has no header line.
    Empty,
    /// The header lacks a required column.
    MissingColumn(CatalogColumn),
    /// The record on this line (counted from 1) has no material id field.
    MissingMaterialId { line: usize },
}

/// One material of the table: its id, trimmed, and the raw text of its
/// P-wave velocity field when the record reaches that column.
pub struct CatalogRow {
    pub material_id: String,
    pub velocity: Option<String>,
}

/// A material row as plain text.
pub open spec fn row_view(r: CatalogRow) -> (Seq<char>, Option<Seq<char>>) {
    (
        r.material_id@,
        match r.velocity {
            Some(v) => Some(v@),
            None => None,
        },
    )
}

/// Material rows as plain text.
pub open spec fn row_views(rows: Seq<CatalogRow>) -> Seq<(Seq<char>, Option<Seq<char>>)> {
    rows.map_values(|r: CatalogRow| row_view(r))
}

/// The row that the record with fields `fields` gives.
pub open spec fn catalog_row(fields: Seq<Seq<char>>, id_col: int, velocity_col: int) -> (
    Seq<char>,
    Option<Seq<char>>,
) {
    (
        trim(fields[id_col]),
        if velocity_col < fields.len() {
            Some(fields[velocity_col])
        } else {
            None
        },
    )
}

/// The rows of the first `n` data lines (the lines after the header); an
/// error gives the number of the offending line in the file.
pub open spec fn catalog_rows_upto(
    data: Seq<Seq<char>>,
    id_col: int,
    velocity_col: int,
    n: int,
) -> Result<Seq<(Seq<char>, Option<Seq<char>>)>, int>
    decreases n,
{
    if n <= 0 {
        Ok(seq![])
    } else {
        match catalog_rows_upto(data, id_col, velocity_col, n - 1) {
            Err(line) => Err(line),
            Ok(rows) => {
                let line = data[n - 1];
                if trim(line).len() == 0 {
                    Ok(rows)
                } else if record_fields(line).len() <= id_col {
                    Err(n + 1)
                } else {
                    Ok(rows.push(catalog_row(record_fields(line), id_col, velocity_col)))
                }
            },
        }
    }
}

/// The material rows of a property table, or why it is refused.
pub open spec fn catalog_rows(text: Seq<char>) -> Result<
    Seq<(Seq<char>, Option<Seq<char>>)>,
    CatalogError,
> {
    let ls = lines(text);
    if ls.len() == 0 {
        Err(CatalogError::Empty)
    } else {
        let header = record_fields(ls[0]);
        match column_position(header, "material_id"@) {
            None => Err(CatalogError::MissingColumn(CatalogColumn::MaterialId)),
            Some(id_col) => match column_position(header, "p_wave_velocity_m_s"@) {
                None => Err(CatalogError::MissingColumn(CatalogColumn::PWaveVelocity)),
                Some(velocity_col) => {
                    let data = ls.skip(1);
                    match catalog_rows_upto(data, id_col, velocity_col, data.len() as int) {
                        Ok(rows) => Ok(rows),
                        Err(line) => Err(CatalogError::MissingMaterialId { line: line as usize }),
                    }
                },
            },
        }
    }
}

proof fn lemma_catalog_rows_err_stays(
    data: Seq<Seq<char>>,
    id_col: int,
    velocity_col: int,
    k: int,
    n: int,
)
    requires
        0 <= k <= n,
        catalog_rows_upto(data, id_col, velocity_col, k) is Err,
    ensures
        catalog_rows_upto(data, id_col, velocity_col, n) == catalog_rows_upto(
            data,
            id_col,
            velocity_col,
            k,
        ),
    decreases n - k,
{
    if n > k {
        lemma_catalog_rows_err_stays(data, id_col, velocity_col, k, n - 1);
    }
}

/// `s` with blanks trimmed at both ends, as a new string.
pub fn trimmed(s: &String) -> (t: String)
    ensures
        t@ == trim(s@),
{
    let v = chars_of(s.as_str());
    let (a, b) = trim_bounds(&v, 0, v.len());
    assert(v@.subrange(0, v@.len() as int) =~= v@);
    string_from_chars(&v, a, b)
}

/// Reads the rows of a material-property CSV table: a header naming the
/// columns `material_id` and `p_wave_velocity_m_s`, then one record per
/// material. Blank lines are skipped.
pub fn catalog_rows_from_csv(text: &str) -> (r: Result<Vec<CatalogRow>, CatalogError>)
    ensures
        match r {
            Ok(rows) => catalog_rows(text@) == Ok::<_, CatalogError>(row_views(rows@)),
            Err(e) => catalog_rows(text@) == Err::<Seq<(Seq<char>, Option<Seq<char>>)>, _>(e),
        },
{
    let chars = chars_of(text);
    let ls = split_lines(&chars);
    let ghost lv = lines(text@);
    if ls.len() == 0 {
        return Err(CatalogError::Empty);
    }
    assert(lv[0] == ls@[0]@);
    let header = split_record_chars(&ls[0]);
    let id_col = match find_column(&header, "material_id") {
        Some(c) => c,
        None => {
            return Err(CatalogError::MissingColumn(CatalogColumn::MaterialId));
        },
    };
    let velocity_col = match find_column(&header, "p_wave_velocity_m_s") {
        Some(c) => c,
        None => {
            return Err(CatalogError::MissingColumn(CatalogColumn::PWaveVelocity));
        },
    };
    let ghost data = lv.skip(1);
    let mut rows: Vec<CatalogRow> = Vec::new();
    let mut k: usize = 1;
    assert(row_views(rows@) =~= Seq::<(Seq<char>, Option<Seq<char>>)>::empty());
    while k < ls.len()
        invariant
            1 <= k <= ls.len(),
            lv == lines(text@),
            crate::text::char_rows(ls@) == lv,
            data == lv.skip(1),
            id_col < header.len(),
            string_views(header@) == record_fields(lv[0]),
            column_position(string_views(header@), "material_id"@) == Some(id_col as int),
            column_position(string_views(header@), "p_wave_velocity_m_s"@) == Some(
                velocity_col as int,
            ),
            catalog_rows_upto(data, id_col as int, velocity_col as int, k - 1) == Ok::<
                _,
                int,
            >(row_views(rows@)),
        decreases ls.len() - k,
    {
        let line = &ls[k];
        assert(data[k - 1] == line@);
        let (a, b) = trim_bounds(line, 0, line.len());
        assert(line@.subrange(0, line@.len() as int) =~= line@);
        if a < b {
            let fields = split_record_chars(line);
            if fields.len() <= id_col {
                assert(trim(data[k - 1]).len() != 0);
                assert(catalog_rows_upto(data, id_col as int, velocity_col as int, k as int)
                    == Err::<Seq<(Seq<char>, Option<Seq<char>>)>, int>(k + 1));
                proof {
                    lemma_catalog_rows_err_stays(
                        data,
                        id_col as int,
                        velocity_col as int,
                        k as int,
                        data.len() as int,
                    );
                }
                return Err(CatalogError::MissingMaterialId { line: k + 1 });
            }
            assert(string_views(fields@)[id_col as int] == fields@[id_col as int]@);
            let material_id = trimmed(&fields[id_col]);
            let velocity = if velocity_col < fields.len() {
                assert(string_views(fields@)[velocity_col as int] == fields@[velocity_col as int]@);
                Some(fields[velocity_col].clone())
            } else {
                None
            };
            let row = CatalogRow { material_id, velocity };
            let ghost before = row_views(rows@);
            rows.push(row);
            assert(row_views(rows@) =~= before.push(
                catalog_row(record_fields(data[k - 1]), id_col as int, velocity_col as int),
            ));
        }
        k = k + 1;
    }
    Ok(rows)
}


/// The cells listed by the first `n` lines of a material-id map: every
/// field of every non-blank line, trimmed, in reading order.
pub open spec fn map_cells_upto(ls: Seq<Seq<char>>, n: int) -> Seq<Seq<char>>
    decreases n,
{
    if n <= 0 {
        seq![]
    } else {
        let prev = map_cells_upto(ls, n - 1);
        let line = ls[n - 1];
        if trim(line).len() == 0 {
            prev
        } else {
            prev + record_fields(line).map_values(|f: Seq<char>| trim(f))
        }
    }
}

/// The material id of every cell of a CSV material map, row after row.
pub open spec fn map_cells(text: Seq<char>) -> Seq<Seq<char>> {
    map_cells_upto(lines(text), lines(text).len() as int)
}

/// Reads the material ids of a CSV material map: each non-blank line is a
/// record of ids, one per cell; ids are trimmed.
pub fn material_ids_from_csv(text: &str) -> (ids: Vec<String>)
    ensures
        string_views(ids@) == map_cells(text@),
{
    let chars = chars_of(text);
    let ls = split_lines(&chars);
    let ghost lv = lines(text@);
    let mut ids: Vec<String> = Vec::new();
    let mut k: usize = 0;
    assert(string_views(ids@) =~= Seq::<Seq<char>>::empty());
    while k < ls.len()
        invariant
            k <= ls.len(),
            lv == lines(text@),
            crate::text::char_rows(ls@) == lv,
            string_views(ids@) == map_cells_upto(lv, k as int),
        decreases ls.len() - k,
    {
        let line = &ls[k];
        assert(lv[k as int] == line@);
        let (a, b) = trim_bounds(line, 0, line.len());
        assert(line@.subrange(0, line@.len() as int) =~= line@);
        if a < b {
            let fields = split_record_chars(line);
            let ghost start = string_views(ids@);
            let ghost fv = string_views(fields@);
            let mut j: usize = 0;
            while j < fields.len()
                invariant
                    j <= fields.len(),
                    fv == string_views(fields@),
                    string_views(ids@) == start + fv.take(j as int).map_values(
                        |f: Seq<char>| trim(f),
                    ),
                decreases fields.len() - j,
            {
                let id = trimmed(&fields[j]);
                let ghost before = string_views(ids@);
                ids.push(id);
                assert(fv.take(j + 1).map_values(|f: Seq<char>| trim(f)) =~= fv.take(
                    j as int,
                ).map_values(|f: Seq<char>| trim(f)).push(trim(fv[j as int])));
                assert(string_views(ids@) =~= before.push(trim(fv[j as int])));
                j = j + 1;
            }
            assert(fv.take(fields.len() as int) =~= fv);
        }
        k = k + 1;
    }
    ids
}


proof fn lemma_catalog_rows_prefix(
    data: Seq<Seq<char>>,
    x: Seq<char>,
    id_col: int,
    velocity_col: int,
    n: int,
)
    requires
        n <= data.len(),
    ensures
        catalog_rows_upto(data.push(x), id_col, velocity_col, n) == catalog_rows_upto(
            data,
            id_col,
            velocity_col,
            n,
        ),
    decreases n,
{
    if n > 0 {
        lemma_catalog_rows_prefix(data, x, id_col, velocity_col, n - 1);
        assert(data.push(x)[n - 1] == data[n - 1]);
    }
}

/// A property table reads the same whether or not its last line ends with a
/// line break: every non-blank record, the last one included, gives its row,
/// and the errors are the same.
pub proof fn lemma_catalog_rows_final_newline(text: Seq<char>)
    requires
        text.len() > 0,
        text.last() != '\r',
    ensures
        catalog_rows(text.push('\n')) == catalog_rows(text),
{
    lemma_lines_final_newline(text);
    let ls = lines(text);
    let ls2 = lines(text.push('\n'));
    if text.last() == '\n' {
        let e = Seq::<char>::empty();
        assert(ls2[0] == ls[0]);
        let data = ls.skip(1);
        let data2 = ls2.skip(1);
        assert(data2 =~= data.push(e));
        let header = record_fields(ls[0]);
        if let Some(id_col) = column_position(header, "material_id"@) {
            if let Some(velocity_col) = column_position(header, "p_wave_velocity_m_s"@) {
                lemma_catalog_rows_prefix(data, e, id_col, velocity_col, data.len() as int);
                assert(data2[data.len() as int] == e);
                assert(trim(e) =~= e);
                assert(catalog_rows_upto(data2, id_col, velocity_col, data2.len() as int)
                    == catalog_rows_upto(data, id_col, velocity_col, data.len() as int));
            }
        }
    } else {
        assert(strip_cr(ls.last()) == ls.last());
        assert(ls2 =~= ls);
    }
}

/// The cells of the first `n` lines depend on those lines only.
proof fn lemma_map_cells_prefix(ls: Seq<Seq<char>>, x: Seq<char>, n: int)
    requires
        n <= ls.len(),
    ensures
        map_cells_upto(ls.push(x), n) == map_cells_upto(ls, n),
    decreases n,
{
    if n > 0 {
        lemma_map_cells_prefix(ls, x, n - 1);
        assert(ls.push(x)[n - 1] == ls[n - 1]);
    }
}

/// A line and the same line with a `'\r'` after it give the same cells.
proof fn lemma_line_cells_push_cr(line: Seq<char>)
    ensures
        trim(line.push('\r')) == trim(line),
        record_fields(line.push('\r')).map_values(|f: Seq<char>| trim(f)) == record_fields(
            line,
        ).map_values(|f: Seq<char>| trim(f)),
{
    lemma_trim_push_cr(line);
    lemma_record_fields_push_plain(line, '\r');
    let r = record_fields(line);
    let r2 = record_fields(line.push('\r'));
    lemma_trim_push_cr(r.last());
    assert forall|i: int| 0 <= i < r.len() implies #[trigger] trim(r2[i]) == trim(r[i]) by {
        if i < r.len() - 1 {
            assert(r2[i] == r[i]);
        } else {
            assert(r2[i] == r.last().push('\r'));
        }
    }
    assert(r2.map_values(|f: Seq<char>| trim(f)) =~= r.map_values(|f: Seq<char>| trim(f)));
}

/// A material map reads the same whether or not its last line ends with a
/// line break: every non-blank line, the last one included, gives its cells.
pub proof fn lemma_map_cells_final_newline(text: Seq<char>)
    ensures
        map_cells(text.push('\n')) == map_cells(text),
{
    lemma_lines_final_newline(text);
    let ls = lines(text);
    let ls2 = lines(text.push('\n'));
    let e = Seq::<char>::empty();
    assert(trim(e) =~= e);
    if text.len() == 0 {
        assert(ls2[0] == e);
        assert(map_cells_upto(ls2, 1) == map_cells_upto(ls2, 0));
    } else if text.last() == '\n' {
        lemma_map_cells_prefix(ls, e, ls.len() as int);
        assert(ls2[ls.len() as int] == e);
    } else {
        let c = ls.last();
        let d = ls.drop_last();
        let n = ls.len() as int;
        assert(ls =~= d.push(c));
        assert(ls2 =~= d.push(strip_cr(c)));
        lemma_map_cells_prefix(d, c, n - 1);
        lemma_map_cells_prefix(d, strip_cr(c), n - 1);
        if c.len() > 0 && c.last() == '\r' {
            let c0 = c.drop_last();
            assert(c =~= c0.push('\r'));
            lemma_line_cells_push_cr(c0);
        }
        assert(ls2[n - 1] == strip_cr(c));
        assert(ls[n - 1] == c);
    }
}

/// The position of the first `false` in `flags`, if any.
pub open spec fn first_false(flags: Seq<bool>) -> Option<int> {
    if exists|i: int| 0 <= i < flags.len() && !flags[i] {
        Some(
            choose|i: int|
                0 <= i < flags.len() && !flags[i] && forall|j: int| 0 <= j < i ==> flags[j],
        )
    } else {
        None
    }
}

/// Why the cells of a material map were refused.
pub enum CellsError {
    /// This material, the first one met, has a wave speed that is not positive.
    NonPositiveSpeed(String),
    /// The map lists `found` cells where the grid has `expected`.
    CellCount { found: usize, expected: usize },
}

/// Accepts the cells of a material map when each cell's wave speed is
/// positive (`speed_positive[i]` for cell `i`) and there are exactly
/// `expected_cells` of them. The first cell with a non-positive speed is
/// reported before a wrong count.
pub fn check_cell_speeds(ids: &Vec<String>, speed_positive: &Vec<bool>, expected_cells: usize) -> (r:
    Result<(), CellsError>)
    requires
        ids.len() == speed_positive.len(),
    ensures
        match first_false(speed_positive@) {
            Some(i) => r matches Err(CellsError::NonPositiveSpeed(id)) && id@ == ids@[i]@,
            None => if ids.len() == expected_cells {
                r is Ok
            } else {
                r matches Err(CellsError::CellCount { found, expected }) && found == ids.len()
                    && expected == expected_cells
            },
        },
{
    let mut i: usize = 0;
    while i < ids.len()
        invariant
            i <= ids.len() == speed_positive.len(),
            forall|j: int| 0 <= j < i ==> speed_positive@[j],
        decreases ids.len() - i,
    {
        if !speed_positive[i] {
            proof {
                let k = choose|k: int|
                    0 <= k < speed_positive@.len() && !speed_positive@[k] && forall|j: int|
                        0 <= j < k ==> speed_positive@[j];
                assert(k == i as int) by {
                    if k < i {
                    } else if k > i {
                        assert(speed_positive@[i as int]);
                    }
                }
            }
            return Err(CellsError::NonPositiveSpeed(ids[i].clone()));
        }
        i = i + 1;
    }
    if ids.len() != expected_cells {
        return Err(CellsError::CellCount { found: ids.len(), expected: expected_cells });
    }
    Ok(())
}

} // verus!
