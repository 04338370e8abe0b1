use vstd::prelude::*;

use crate::text::chars_of;

verus! {

/// The fields of `rest`, read with the field `field` open, inside quotes or
/// not, after the finished fields `done`.
///
/// Inside quotes a doubled `"` stands for one `"` and a comma is plain text;
/// a lone `"` opens or closes quoting; outside quotes a comma ends a field.
pub open spec fn record_fields_from(
    rest: Seq<char>,
    in_quotes: bool,
    field: Seq<char>,
    done: Seq<Seq<char>>,
) -> Seq<Seq<char>>
    decreases rest.len(),
{
    if rest.len() == 0 {
        done.push(field)
    } else if rest[0] == '"' && in_quotes && rest.len() > 1 && rest[1] == '"' {
        record_fields_from(rest.skip(2), in_quotes, field.push('"'), done)
    } else if rest[0] == '"' {
        record_fields_from(rest.skip(1), !in_quotes, field, done)
    } else if rest[0] == ',' && !in_quotes {
        record_fields_from(rest.skip(1), in_quotes, seq![], done.push(field))
    } else {
        record_fields_from(rest.skip(1), in_quotes, field.push(rest[0]), done)
    }
}

/// The fields of one CSV record.
pub open spec fn record_fields(line: Seq<char>) -> Seq<Seq<char>> {
    record_fields_from(line, false, seq![], seq![])
}

/// The character sequences held by a list of strings.
pub open spec fn string_views(v: Seq<String>) -> Seq<Seq<char>> {
    v.map_values(|s: String| s@)
}

/// A record never has fewer than one field.
proof fn lemma_record_fields_from_nonempty(
    rest: Seq<char>,
    in_quotes: bool,
    field: Seq<char>,
    done: Seq<Seq<char>>,
)
    ensures
        record_fields_from(rest, in_quotes, field, done).len() > done.len(),
    decreases rest.len(),
{
    if rest.len() == 0 {
    } else if rest[0] == '"' && in_quotes && rest.len() > 1 && rest[1] == '"' {
        lemma_record_fields_from_nonempty(rest.skip(2), in_quotes, field.push('"'), done);
    } else if rest[0] == '"' {
        lemma_record_fields_from_nonempty(rest.skip(1), !in_quotes, field, done);
    } else if rest[0] == ',' && !in_quotes {
        lemma_record_fields_from_nonempty(rest.skip(1), in_quotes, seq![], done.push(field));
    } else {
        lemma_record_fields_from_nonempty(rest.skip(1), in_quotes, field.push(rest[0]), done);
    }
}


/// `f` with every `"` doubled, as a quoted CSV field writes it.
pub open spec fn escape_quotes(f: Seq<char>) -> Seq<char>
    decreases f.len(),
{
    if f.len() == 0 {
        seq![]
    } else if f[0] == '"' {
        seq!['"', '"'] + escape_quotes(f.skip(1))
    } else {
        seq![f[0]] + escape_quotes(f.skip(1))
    }
}

/// `f` written as a quoted CSV field.
pub open spec fn quote_field(f: Seq<char>) -> Seq<char> {
    seq!['"'] + escape_quotes(f) + seq!['"']
}

/// The record that writes every field of `fields` quoted, separated by commas.
pub open spec fn join_quoted(fields: Seq<Seq<char>>) -> Seq<char>
    decreases fields.len(),
{
    if fields.len() <= 1 {
        if fields.len() == 0 {
            seq![]
        } else {
            quote_field(fields[0])
        }
    } else {
        quote_field(fields[0]) + seq![','] + join_quoted(fields.skip(1))
    }
}

/// Reading the escaped text of a quoted field and its closing quote adds the
/// field's characters to the open field and leaves quoting.
proof fn lemma_read_quoted_rest(
    f: Seq<char>,
    rest: Seq<char>,
    field: Seq<char>,
    done: Seq<Seq<char>>,
)
    requires
        rest.len() == 0 || rest[0] != '"',
    ensures
        record_fields_from(escape_quotes(f) + seq!['"'] + rest, true, field, done)
            == record_fields_from(rest, false, field + f, done),
    decreases f.len(),
{
    let input = escape_quotes(f) + seq!['"'] + rest;
    if f.len() == 0 {
        assert(escape_quotes(f) =~= Seq::<char>::empty());
        assert(input =~= seq!['"'] + rest);
        assert(input.skip(1) =~= rest);
        assert(field + f =~= field);
    } else if f[0] == '"' {
        let tail = escape_quotes(f.skip(1)) + seq!['"'] + rest;
        assert(input =~= seq!['"', '"'] + tail);
        assert(input.skip(2) =~= tail);
        lemma_read_quoted_rest(f.skip(1), rest, field.push('"'), done);
        assert(field.push('"') + f.skip(1) =~= field + f);
    } else {
        let tail = escape_quotes(f.skip(1)) + seq!['"'] + rest;
        assert(input =~= seq![f[0]] + tail);
        assert(input.skip(1) =~= tail);
        assert(input[0] == f[0]);
        if f[0] == ',' {
        }
        lemma_read_quoted_rest(f.skip(1), rest, field.push(f[0]), done);
        assert(field.push(f[0]) + f.skip(1) =~= field + f);
    }
}

/// Reading a whole record of quoted fields appends exactly those fields.
proof fn lemma_read_join_quoted(fields: Seq<Seq<char>>, done: Seq<Seq<char>>)
    requires
        fields.len() >= 1,
    ensures
        record_fields_from(join_quoted(fields), false, seq![], done) == done + fields,
    decreases fields.len(),
{
    let f = fields[0];
    if fields.len() == 1 {
        let input = quote_field(f);
        assert(input =~= seq!['"'] + (escape_quotes(f) + seq!['"'] + Seq::<char>::empty()));
        assert(input.skip(1) =~= escape_quotes(f) + seq!['"'] + Seq::<char>::empty());
        lemma_read_quoted_rest(f, Seq::<char>::empty(), seq![], done);
        assert(Seq::<char>::empty() + f =~= f);
        assert(done + fields =~= done.push(f));
    } else {
        let rest = seq![','] + join_quoted(fields.skip(1));
        let input = join_quoted(fields);
        assert(input =~= seq!['"'] + (escape_quotes(f) + seq!['"'] + rest));
        assert(input.skip(1) =~= escape_quotes(f) + seq!['"'] + rest);
        lemma_read_quoted_rest(f, rest, seq![], done);
        assert(Seq::<char>::empty() + f =~= f);
        assert(rest.skip(1) =~= join_quoted(fields.skip(1)));
        lemma_read_join_quoted(fields.skip(1), done.push(f));
        assert(done.push(f) + fields.skip(1) =~= done + fields);
    }
}

/// Writing fields quoted and splitting the record gives the same fields back,
/// whatever commas and quotes they hold.
pub proof fn lemma_split_join_quoted(fields: Seq<Seq<char>>)
    requires
        fields.len() >= 1,
    ensures
        record_fields(join_quoted(fields)) == fields,
{
    lemma_read_join_quoted(fields, seq![]);
    assert(Seq::<Seq<char>>::empty() + fields =~= fields);
}

/// Whether `f` can be written as a CSV field without quotes.
pub open spec fn is_plain_field(f: Seq<char>) -> bool {
    forall|i: int| 0 <= i < f.len() ==> f[i] != '"' && f[i] != ','
}

/// The record that writes the fields of `fields` as they are, separated by commas.
pub open spec fn join_plain(fields: Seq<Seq<char>>) -> Seq<char>
    decreases fields.len(),
{
    if fields.len() <= 1 {
        if fields.len() == 0 {
            seq![]
        } else {
            fields[0]
        }
    } else {
        fields[0] + seq![','] + join_plain(fields.skip(1))
    }
}

proof fn lemma_read_plain_rest(f: Seq<char>, rest: Seq<char>, field: Seq<char>, done: Seq<Seq<char>>)
    requires
        is_plain_field(f),
    ensures
        record_fields_from(f + rest, false, field, done) == record_fields_from(
            rest,
            false,
            field + f,
            done,
        ),
    decreases f.len(),
{
    if f.len() == 0 {
        assert(f + rest =~= rest);
        assert(field + f =~= field);
    } else {
        let input = f + rest;
        assert(input[0] == f[0]);
        assert(input.skip(1) =~= f.skip(1) + rest);
        lemma_read_plain_rest(f.skip(1), rest, field.push(f[0]), done);
        assert(field.push(f[0]) + f.skip(1) =~= field + f);
    }
}

proof fn lemma_read_join_plain(fields: Seq<Seq<char>>, done: Seq<Seq<char>>)
    requires
        fields.len() >= 1,
        forall|k: int| 0 <= k < fields.len() ==> is_plain_field(#[trigger] fields[k]),
    ensures
        record_fields_from(join_plain(fields), false, seq![], done) == done + fields,
    decreases fields.len(),
{
    let f = fields[0];
    assert(is_plain_field(f));
    if fields.len() == 1 {
        assert(f + Seq::<char>::empty() =~= f);
        lemma_read_plain_rest(f, Seq::<char>::empty(), seq![], done);
        assert(Seq::<char>::empty() + f =~= f);
        assert(done + fields =~= done.push(f));
    } else {
        let rest = seq![','] + join_plain(fields.skip(1));
        assert(join_plain(fields) =~= f + rest);
        assert(rest[0] == ',');
        lemma_read_plain_rest(f, rest, seq![], done);
        assert(Seq::<char>::empty() + f =~= f);
        assert(rest.skip(1) =~= join_plain(fields.skip(1)));
        assert forall|k: int| 0 <= k < fields.skip(1).len() implies is_plain_field(
            #[trigger] fields.skip(1)[k],
        ) by {
            assert(fields.skip(1)[k] == fields[k + 1]);
        }
        lemma_read_join_plain(fields.skip(1), done.push(f));
        assert(done.push(f) + fields.skip(1) =~= done + fields);
    }
}

/// Fields without quotes or commas, joined by commas, split back into the
/// same fields: the plain records of material tables and maps.
pub proof fn lemma_split_join_plain(fields: Seq<Seq<char>>)
    requires
        fields.len() >= 1,
        forall|k: int| 0 <= k < fields.len() ==> is_plain_field(#[trigger] fields[k]),
    ensures
        record_fields(join_plain(fields)) == fields,
{
    lemma_read_join_plain(fields, seq![]);
    assert(Seq::<Seq<char>>::empty() + fields =~= fields);
}


proof fn lemma_record_fields_from_push_plain(
    rest: Seq<char>,
    in_quotes: bool,
    field: Seq<char>,
    done: Seq<Seq<char>>,
    ch: char,
)
    requires
        ch != '"',
        ch != ',',
    ensures
        ({
            let r = record_fields_from(rest, in_quotes, field, done);
            record_fields_from(rest.push(ch), in_quotes, field, done) == r.drop_last().push(
                r.last().push(ch),
            )
        }),
    decreases rest.len(),
{
    let r2 = rest.push(ch);
    lemma_record_fields_from_nonempty(rest, in_quotes, field, done);
    if rest.len() == 0 {
        assert(r2 =~= seq![ch]);
        assert(r2[0] == ch);
        assert(r2.skip(1) =~= Seq::<char>::empty());
        assert(record_fields_from(r2, in_quotes, field, done) == record_fields_from(
            r2.skip(1),
            in_quotes,
            field.push(ch),
            done,
        ));
        assert(done.push(field).drop_last() =~= done);
    } else {
        assert(r2[0] == rest[0]);
        if rest[0] == '"' && in_quotes && rest.len() > 1 && rest[1] == '"' {
            assert(r2[1] == rest[1]);
            assert(r2.skip(2) =~= rest.skip(2).push(ch));
            lemma_record_fields_from_push_plain(rest.skip(2), in_quotes, field.push('"'), done, ch);
            assert(record_fields_from(r2, in_quotes, field, done) == record_fields_from(
                r2.skip(2),
                in_quotes,
                field.push('"'),
                done,
            ));
        } else if rest[0] == '"' {
            if rest.len() == 1 {
                assert(r2[1] == ch);
            } else {
                assert(r2[1] == rest[1]);
            }
            assert(r2.skip(1) =~= rest.skip(1).push(ch));
            lemma_record_fields_from_push_plain(rest.skip(1), !in_quotes, field, done, ch);
            assert(record_fields_from(r2, in_quotes, field, done) == record_fields_from(
                r2.skip(1),
                !in_quotes,
                field,
                done,
            ));
        } else if rest[0] == ',' && !in_quotes {
            assert(r2.skip(1) =~= rest.skip(1).push(ch));
            lemma_record_fields_from_push_plain(rest.skip(1), in_quotes, seq![], done.push(field), ch);
            assert(record_fields_from(r2, in_quotes, field, done) == record_fields_from(
                r2.skip(1),
                in_quotes,
                seq![],
                done.push(field),
            ));
        } else {
            assert(r2.skip(1) =~= rest.skip(1).push(ch));
            lemma_record_fields_from_push_plain(rest.skip(1), in_quotes, field.push(rest[0]), done, ch);
            assert(record_fields_from(r2, in_quotes, field, done) == record_fields_from(
                r2.skip(1),
                in_quotes,
                field.push(rest[0]),
                done,
            ));
        }
    }
}

/// Appending a character that is neither a quote nor a comma appends it to the
/// last field and leaves the other fields alone.
pub proof fn lemma_record_fields_push_plain(line: Seq<char>, ch: char)
    requires
        ch != '"',
        ch != ',',
    ensures
        record_fields(line).len() > 0,
        record_fields(line.push(ch)) == record_fields(line).drop_last().push(
            record_fields(line).last().push(ch),
        ),
{
    lemma_record_fields_from_nonempty(line, false, seq![], seq![]);
    lemma_record_fields_from_push_plain(line, false, seq![], seq![], ch);
}

/// The fields of `line[..]`, as `split_csv_record` yields them.
pub fn split_record_chars(line: &Vec<char>) -> (fields: Vec<String>)
    ensures
        string_views(fields@) == record_fields(line@),
        fields.len() >= 1,
{
    let mut fields: Vec<String> = Vec::new();
    let mut field = String::new();
    let mut in_quotes = false;
    let mut i: usize = 0;
    let n = line.len();
    assert(line@.skip(0) =~= line@);
    assert(string_views(fields@) =~= Seq::<Seq<char>>::empty());
    while i < n
        invariant
            n == line.len(),
            i <= n,
            record_fields_from(line@.skip(i as int), in_quotes, field@, string_views(fields@))
                == record_fields(line@),
        decreases n - i,
    {
        let ghost rest = line@.skip(i as int);
        assert(rest[0] == line@[i as int]);
        let ch = line[i];
        if ch == '"' && in_quotes && i + 1 < n && line[i + 1] == '"' {
            assert(rest[1] == line@[i + 1]);
            assert(rest.skip(2) =~= line@.skip(i + 2));
            field.push('"');
            i = i + 2;
        } else if ch == '"' {
            assert(rest.skip(1) =~= line@.skip(i + 1));
            in_quotes = !in_quotes;
            i = i + 1;
        } else if ch == ',' && !in_quotes {
            assert(rest.skip(1) =~= line@.skip(i + 1));
            let ghost before = string_views(fields@);
            let ghost f = field@;
            fields.push(field);
            assert(string_views(fields@) =~= before.push(f));
            field = String::new();
            i = i + 1;
        } else {
            assert(rest.skip(1) =~= line@.skip(i + 1));
            field.push(ch);
            i = i + 1;
        }
    }
    let ghost before = string_views(fields@);
    let ghost f = field@;
    assert(line@.skip(i as int) =~= Seq::<char>::empty());
    fields.push(field);
    assert(string_views(fields@) =~= before.push(f));
    proof {
        lemma_record_fields_from_nonempty(line@, false, seq![], seq![]);
    }
    fields
}

/// Splits one CSV record into its fields. Commas inside double quotes belong
/// to the field, and a doubled `"` inside quotes stands for one `"`.
pub fn split_csv_record(line: &str) -> (fields: Vec<String>)
    ensures
        string_views(fields@) == record_fields(line@),
{
    let chars = chars_of(line);
    split_record_chars(&chars)
}

} // verus!
