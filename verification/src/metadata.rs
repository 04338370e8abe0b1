use vstd::prelude::*;

use crate::csv::string_views;
use crate::grid::{cell_index, lemma_idx_in_bounds, lemma_idx_injective};
use crate::materials::{column_position, position_from};
use vstd::utf8::encode_utf8;

verus! {

/// The distinct entries of `ids`, each kept at its first occurrence.
pub open spec fn distinct_names(ids: Seq<Seq<char>>) -> Seq<Seq<char>>
    decreases ids.len(),
{
    if ids.len() == 0 {
        seq![]
    } else {
        let d = distinct_names(ids.drop_last());
        if d.contains(ids.last()) {
            d
        } else {
            d.push(ids.last())
        }
    }
}

/// The longest UTF-8 length among `names`, or 0.
pub open spec fn max_utf8_len(names: Seq<Seq<char>>) -> nat
    decreases names.len(),
{
    if names.len() == 0 {
        0
    } else {
        let m = max_utf8_len(names.drop_last());
        let l = encode_utf8(names.last()).len();
        if l > m {
            l
        } else {
            m
        }
    }
}

/// The width of one row of the name table: the longest name in bytes, at least 1.
pub open spec fn name_width(names: Seq<Seq<char>>) -> nat {
    if max_utf8_len(names) > 1 {
        max_utf8_len(names)
    } else {
        1
    }
}

/// The number of rows of the name table: one per name, at least one.
pub open spec fn name_rows(names: Seq<Seq<char>>) -> nat {
    if names.len() > 1 {
        names.len()
    } else {
        1
    }
}

/// Byte `b` of row `r` of the name table: the UTF-8 encoding of name `r`,
/// padded with zero bytes.
pub open spec fn table_byte(names: Seq<Seq<char>>, r: int, b: int) -> u8 {
    if 0 <= r < names.len() && 0 <= b < encode_utf8(names[r]).len() {
        encode_utf8(names[r])[b]
    } else {
        0
    }
}

proof fn lemma_distinct_names_props(ids: Seq<Seq<char>>)
    ensures
        forall|a: int, b: int|
            0 <= a < b < distinct_names(ids).len() ==> distinct_names(ids)[a] != distinct_names(
                ids,
            )[b],
        forall|j: int| 0 <= j < ids.len() ==> distinct_names(ids).contains(#[trigger] ids[j]),
        forall|k: int|
            0 <= k < distinct_names(ids).len() ==> ids.contains(#[trigger] distinct_names(ids)[k]),
    decreases ids.len(),
{
    if ids.len() > 0 {
        let prev = ids.drop_last();
        lemma_distinct_names_props(prev);
        let d = distinct_names(prev);
        assert forall|j: int| 0 <= j < ids.len() implies distinct_names(ids).contains(
            #[trigger] ids[j],
        ) by {
            if j < ids.len() - 1 {
                assert(prev[j] == ids[j]);
                if !d.contains(ids.last()) {
                    let k = choose|k: int| 0 <= k < d.len() && d[k] == ids[j];
                    assert(distinct_names(ids)[k] == ids[j]);
                }
            } else {
                if !d.contains(ids.last()) {
                    assert(distinct_names(ids)[d.len() as int] == ids[j]);
                }
            }
        }
        assert forall|k: int| 0 <= k < distinct_names(ids).len() implies ids.contains(
            #[trigger] distinct_names(ids)[k],
        ) by {
            if k < d.len() {
                assert(distinct_names(ids)[k] == d[k]);
                let j = choose|j: int| 0 <= j < prev.len() && prev[j] == d[k];
                assert(ids[j] == prev[j]);
            } else {
                assert(ids[ids.len() - 1] == ids.last());
            }
        }
    }
}

proof fn lemma_max_utf8_len_bound(names: Seq<Seq<char>>, k: int)
    requires
        0 <= k < names.len(),
    ensures
        encode_utf8(names[k]).len() <= max_utf8_len(names),
    decreases names.len(),
{
    if k < names.len() - 1 {
        assert(names.drop_last()[k] == names[k]);
        lemma_max_utf8_len_bound(names.drop_last(), k);
    }
}

proof fn lemma_position_push_found(s: Seq<Seq<char>>, x: Seq<char>, y: Seq<char>, i: int)
    requires
        0 <= i,
        position_from(s, y, i) is Some,
    ensures
        position_from(s.push(x), y, i) == position_from(s, y, i),
    decreases s.len() - i,
{
    if i < s.len() && s[i] != y {
        lemma_position_push_found(s, x, y, i + 1);
    }
}

proof fn lemma_position_push_new(s: Seq<Seq<char>>, x: Seq<char>, i: int)
    requires
        0 <= i <= s.len(),
        position_from(s, x, i) is None,
    ensures
        position_from(s.push(x), x, i) == Some(s.len() as int),
    decreases s.len() - i,
{
    if i < s.len() {
        lemma_position_push_new(s, x, i + 1);
    }
}

proof fn lemma_position_none(s: Seq<Seq<char>>, x: Seq<char>, i: int)
    requires
        0 <= i,
        position_from(s, x, i) is None,
    ensures
        forall|k: int| i <= k < s.len() ==> s[k] != x,
    decreases s.len() - i,
{
    if i < s.len() {
        lemma_position_none(s, x, i + 1);
    }
}

proof fn lemma_position_found(s: Seq<Seq<char>>, x: Seq<char>, i: int)
    requires
        0 <= i,
        position_from(s, x, i) is Some,
    ensures
        i <= position_from(s, x, i)->0 < s.len(),
        s[position_from(s, x, i)->0] == x,
    decreases s.len() - i,
{
    if i < s.len() && s[i] != x {
        lemma_position_found(s, x, i + 1);
    }
}

/// The distinct ids in order of first appearance, and each cell's position among them.
fn index_ids(ids: &Vec<String>) -> (r: (Vec<String>, Vec<i32>))
    ensures
        string_views(r.0@) == distinct_names(string_views(ids@)),
        r.1.len() == ids.len(),
        forall|j: int|
            0 <= j < ids.len() ==> #[trigger] column_position(string_views(r.0@), ids@[j]@) is Some
                && r.1@[j] == column_position(string_views(r.0@), ids@[j]@)->0 as i32,
{
    let ghost idv = string_views(ids@);
    let mut names: Vec<String> = Vec::new();
    let mut indices: Vec<i32> = Vec::new();
    let mut j: usize = 0;
    assert(string_views(names@) =~= distinct_names(idv.take(0)));
    while j < ids.len()
        invariant
            j <= ids.len(),
            idv == string_views(ids@),
            string_views(names@) == distinct_names(idv.take(j as int)),
            indices.len() == j,
            forall|q: int|
                0 <= q < j ==> #[trigger] column_position(string_views(names@), idv[q]) is Some
                    && indices@[q] == column_position(string_views(names@), idv[q])->0 as i32,
        decreases ids.len() - j,
    {
        let ghost pre = idv.take(j as int);
        let ghost post = idv.take(j + 1);
        assert(post.drop_last() =~= pre);
        assert(post.last() == ids@[j as int]@);
        assert(idv[j as int] == ids@[j as int]@);
        let ghost old_nv = string_views(names@);
        let ghost old_indices = indices@;
        let k = match crate::materials::find_column(&names, ids[j].as_str()) {
            Some(k) => {
                assert(old_nv[k as int] == ids@[j as int]@);
                k
            },
            None => {
                proof {
                    lemma_position_none(old_nv, idv[j as int], 0);
                    if old_nv.contains(idv[j as int]) {
                        let t = choose|t: int| 0 <= t < old_nv.len() && old_nv[t] == idv[j as int];
                    }
                }
                let k = names.len();
                names.push(ids[j].clone());
                assert(string_views(names@) =~= old_nv.push(ids@[j as int]@));
                proof {
                    lemma_position_push_new(old_nv, idv[j as int], 0);
                    assert forall|q: int| 0 <= q < j implies #[trigger] column_position(
                        string_views(names@),
                        idv[q],
                    ) == column_position(old_nv, idv[q]) by {
                        lemma_position_push_found(old_nv, idv[j as int], idv[q], 0);
                    }
                }
                k
            },
        };
        indices.push(k as i32);
        assert forall|q: int| 0 <= q < j + 1 implies #[trigger] column_position(
            string_views(names@),
            idv[q],
        ) is Some && indices@[q] == column_position(string_views(names@), idv[q])->0 as i32 by {
            if q < j {
                assert(indices@[q] == old_indices[q]);
            }
        }
        j = j + 1;
    }
    assert(idv.take(ids.len() as int) =~= idv);
    assert forall|j: int| 0 <= j < ids.len() implies #[trigger] column_position(
        string_views(names@),
        ids@[j]@,
    ) is Some && indices@[j] == column_position(string_views(names@), ids@[j]@)->0 as i32 by {
        assert(idv[j] == ids@[j]@);
    }
    (names, indices)
}

/// The longest UTF-8 length among `names`, or 0.
fn longest_name(names: &Vec<String>) -> (w: usize)
    ensures
        w as nat == max_utf8_len(string_views(names@)),
{
    let ghost nv = string_views(names@);
    let mut width: usize = 0;
    let mut r: usize = 0;
    while r < names.len()
        invariant
            r <= names.len(),
            nv == string_views(names@),
            width as nat == max_utf8_len(nv.take(r as int)),
        decreases names.len() - r,
    {
        let name = names[r].as_str();
        assert(name@ == names@[r as int]@);
        let len = name.as_bytes().len();
        assert(nv.take(r + 1).drop_last() =~= nv.take(r as int));
        assert(nv.take(r + 1).last() == names@[r as int]@);
        assert(len as nat == encode_utf8(names@[r as int]@).len());
        if len > width {
            width = len;
        }
        r = r + 1;
    }
    assert(nv.take(names.len() as int) =~= nv);
    width
}

/// Writes the UTF-8 bytes of name `row` at the start of its row of `table`.
fn write_table_row(table: &mut Vec<u8>, names: &Vec<String>, row: usize, rows: usize, width: usize)
    requires
        row < names.len() <= rows,
        width > 0,
        old(table).len() == rows * width,
        encode_utf8(names@[row as int]@).len() <= width,
        forall|r2: int, c: int|
            0 <= r2 < rows && 0 <= c < width ==> #[trigger] old(table)@[cell_index(
                c,
                r2,
                width as int,
            )] == if r2 < row {
                table_byte(string_views(names@), r2, c)
            } else {
                0u8
            },
    ensures
        final(table).len() == rows * width,
        forall|r2: int, c: int|
            0 <= r2 < rows && 0 <= c < width ==> #[trigger] final(table)@[cell_index(
                c,
                r2,
                width as int,
            )] == if r2 <= row {
                table_byte(string_views(names@), r2, c)
            } else {
                0u8
            },
{
    let ghost nv = string_views(names@);
    let bytes = names[row].as_str().as_bytes();
    let ghost enc = encode_utf8(nv[row as int]);
    assert(nv[row as int] == names@[row as int]@);
    assert(bytes@ == enc);
    proof {
        lemma_idx_in_bounds(0, row as int, width as int, rows as int);
    }
    let offset = row * width;
    let mut b: usize = 0;
    while b < bytes.len()
        invariant
            row < names.len() <= rows,
            nv == string_views(names@),
            bytes@ == enc,
            enc == encode_utf8(nv[row as int]),
            bytes.len() <= width,
            width > 0,
            offset == row * width,
            table.len() == rows * width,
            b <= bytes.len(),
            forall|r2: int, c: int|
                0 <= r2 < rows && 0 <= c < width ==> #[trigger] table@[cell_index(
                    c,
                    r2,
                    width as int,
                )] == if r2 < row || (r2 == row && c < b) {
                    table_byte(nv, r2, c)
                } else {
                    0u8
                },
        decreases bytes.len() - b,
    {
        proof {
            lemma_idx_in_bounds(b as int, row as int, width as int, rows as int);
        }
        let ghost before = table@;
        let ghost at = cell_index(b as int, row as int, width as int);
        table.set(offset + b, bytes[b]);
        assert forall|r2: int, c: int| 0 <= r2 < rows && 0 <= c < width implies #[trigger] table@[cell_index(
            c,
            r2,
            width as int,
        )] == if r2 < row || (r2 == row && c < b + 1) {
            table_byte(nv, r2, c)
        } else {
            0u8
        } by {
            lemma_idx_in_bounds(c, r2, width as int, rows as int);
            let here = cell_index(c, r2, width as int);
            if here == at {
                lemma_idx_injective(c, r2, b as int, row as int, width as int);
            } else {
                assert(table@[here] == before[here]);
            }
        }
        b = b + 1;
    }
    assert forall|r2: int, c: int| 0 <= r2 < rows && 0 <= c < width implies #[trigger] table@[cell_index(
        c,
        r2,
        width as int,
    )] == if r2 <= row {
        table_byte(nv, r2, c)
    } else {
        0u8
    } by {
        if r2 == row && c >= b {
            assert(table_byte(nv, r2, c) == 0u8);
        }
    }
}

/// The name list holds each id once, holds nothing but ids, and the position
/// recorded for a cell names that cell's id.
pub proof fn lemma_names_index_ids(ids: Seq<Seq<char>>)
    ensures
        ({
            let names = distinct_names(ids);
            &&& forall|a: int, b: int| 0 <= a < b < names.len() ==> names[a] != names[b]
            &&& forall|k: int| 0 <= k < names.len() ==> ids.contains(#[trigger] names[k])
            &&& forall|j: int|
                0 <= j < ids.len() ==> (#[trigger] column_position(names, ids[j])) is Some
                    && names[column_position(names, ids[j])->0] == ids[j]
        }),
{
    lemma_distinct_names_props(ids);
    let names = distinct_names(ids);
    assert forall|j: int| 0 <= j < ids.len() implies (#[trigger] column_position(
        names,
        ids[j],
    )) is Some && names[column_position(names, ids[j])->0] == ids[j] by {
        assert(names.contains(ids[j]));
        if column_position(names, ids[j]) is None {
            lemma_position_none(names, ids[j], 0);
            let k = choose|k: int| 0 <= k < names.len() && names[k] == ids[j];
        }
        lemma_position_found(names, ids[j], 0);
    }
}

/// Names the material of every cell by a small integer: the distinct ids in
/// order of first appearance, each cell's position in that list, and the
/// list as a zero-padded byte table (rows, row width).
pub fn material_id_metadata(ids: &Vec<String>) -> (r: (Vec<i32>, Vec<u8>, usize, usize))
    requires
        name_rows(distinct_names(string_views(ids@))) * name_width(
            distinct_names(string_views(ids@)),
        ) <= usize::MAX,
    ensures
        ({
            let names = distinct_names(string_views(ids@));
            let (indices, table, rows, width) = r;
            &&& indices.len() == ids.len()
            &&& forall|j: int|
                0 <= j < ids.len() ==> #[trigger] column_position(names, ids@[j]@) is Some
                    && indices@[j] == column_position(names, ids@[j]@)->0 as i32
            &&& rows == name_rows(names)
            &&& width == name_width(names)
            &&& table.len() == rows * width
            &&& forall|row: int, b: int|
                0 <= row < rows && 0 <= b < width ==> #[trigger] table@[cell_index(
                    b,
                    row,
                    width as int,
                )] == table_byte(names, row, b)
        }),
{
    let (names, indices) = index_ids(ids);
    let ghost nv = string_views(names@);
    let longest = longest_name(&names);
    let width: usize = if longest > 1 {
        longest
    } else {
        1
    };
    let rows: usize = if names.len() > 1 {
        names.len()
    } else {
        1
    };
    let total = rows * width;
    let mut table: Vec<u8> = Vec::new();
    let mut i: usize = 0;
    while i < total
        invariant
            i <= total,
            table.len() == i,
            forall|q: int| 0 <= q < i ==> table@[q] == 0u8,
        decreases total - i,
    {
        table.push(0u8);
        i = i + 1;
    }
    assert forall|r2: int, c: int| 0 <= r2 < rows && 0 <= c < width implies #[trigger] table@[cell_index(
        c,
        r2,
        width as int,
    )] == 0u8 by {
        lemma_idx_in_bounds(c, r2, width as int, rows as int);
    }
    let mut row: usize = 0;
    while row < names.len()
        invariant
            row <= names.len() <= rows,
            nv == string_views(names@),
            rows == name_rows(nv),
            width == name_width(nv),
            width > 0,
            total == rows * width,
            table.len() == total,
            forall|r2: int, c: int|
                0 <= r2 < rows && 0 <= c < width ==> #[trigger] table@[cell_index(
                    c,
                    r2,
                    width as int,
                )] == if r2 < row {
                    table_byte(nv, r2, c)
                } else {
                    0u8
                },
        decreases names.len() - row,
    {
        proof {
            lemma_max_utf8_len_bound(nv, row as int);
            assert(nv[row as int] == names@[row as int]@);
        }
        write_table_row(&mut table, &names, row, rows, width);
        row = row + 1;
    }
    assert forall|r2: int, c: int| 0 <= r2 < rows && 0 <= c < width implies #[trigger] table@[cell_index(
        c,
        r2,
        width as int,
    )] == table_byte(nv, r2, c) by {
        if r2 >= names.len() {
            assert(table_byte(nv, r2, c) == 0u8);
        }
    }
    (indices, table, rows, width)
}

} // verus!
