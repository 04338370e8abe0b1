use vstd::prelude::*;

use crate::csv::string_views;
use crate::text::{
    char_rows, chars_of, is_white_space, is_whitespace, lines, split_lines, string_from_chars,
};

verus! {

/// The part of `line` before its first `'#'`: a PPM comment runs to the end of the line.
pub open spec fn before_comment(line: Seq<char>) -> Seq<char>
    decreases line.len(),
{
    if line.len() == 0 {
        line
    } else if line[0] == '#' {
        seq![]
    } else {
        seq![line[0]] + before_comment(line.skip(1))
    }
}

/// The blank-separated words of `rest`, read after the partial word `cur`
/// and the finished words `done`, as `str::split_whitespace` yields them.
pub open spec fn words_from(rest: Seq<char>, cur: Seq<char>, done: Seq<Seq<char>>) -> Seq<
    Seq<char>,
>
    decreases rest.len(),
{
    if rest.len() == 0 {
        if cur.len() == 0 {
            done
        } else {
            done.push(cur)
        }
    } else if is_white_space(rest[0]) {
        words_from(rest.skip(1), seq![], if cur.len() == 0 { done } else { done.push(cur) })
    } else {
        words_from(rest.skip(1), cur.push(rest[0]), done)
    }
}

/// The blank-separated words of `s`.
pub open spec fn words(s: Seq<char>) -> Seq<Seq<char>> {
    words_from(s, seq![], seq![])
}

/// The tokens of the first `n` lines of a PPM text.
pub open spec fn tokens_upto(ls: Seq<Seq<char>>, n: int) -> Seq<Seq<char>>
    decreases n,
{
    if n <= 0 {
        seq![]
    } else {
        tokens_upto(ls, n - 1) + words(before_comment(ls[n - 1]))
    }
}

/// The tokens of a plain PPM text: the words of every line, with `#` comments removed.
pub open spec fn ppm_token_seq(text: Seq<char>) -> Seq<Seq<char>> {
    tokens_upto(lines(text), lines(text).len() as int)
}

/// Whether `t` could be one token: not empty, with no blank and no `'#'`.
pub open spec fn is_token(t: Seq<char>) -> bool {
    &&& t.len() > 0
    &&& forall|i: int| 0 <= i < t.len() ==> !is_white_space(#[trigger] t[i]) && t[i] != '#'
}

/// Every word is a nonempty run of non-blank characters of its text.
proof fn lemma_words_from_are_tokens(rest: Seq<char>, cur: Seq<char>, done: Seq<Seq<char>>)
    requires
        forall|i: int| 0 <= i < rest.len() ==> rest[i] != '#',
        forall|i: int| 0 <= i < cur.len() ==> !is_white_space(#[trigger] cur[i]) && cur[i] != '#',
        forall|k: int| 0 <= k < done.len() ==> is_token(#[trigger] done[k]),
    ensures
        forall|k: int|
            0 <= k < words_from(rest, cur, done).len() ==> is_token(
                #[trigger] words_from(rest, cur, done)[k],
            ),
    decreases rest.len(),
{
    if rest.len() == 0 {
        if cur.len() > 0 {
            let d = done.push(cur);
            assert forall|k: int| 0 <= k < d.len() implies is_token(#[trigger] d[k]) by {
                if k < done.len() {
                    assert(d[k] == done[k]);
                }
            }
            assert(words_from(rest, cur, done) == d);
        }
    } else if is_white_space(rest[0]) {
        let d = if cur.len() == 0 {
            done
        } else {
            done.push(cur)
        };
        assert forall|k: int| 0 <= k < d.len() implies is_token(#[trigger] d[k]) by {
            if k < done.len() {
                assert(d[k] == done[k]);
            }
        }
        lemma_words_from_are_tokens(rest.skip(1), seq![], d);
        assert(words_from(rest, cur, done) == words_from(rest.skip(1), seq![], d));
    } else {
        let c = cur.push(rest[0]);
        assert forall|i: int| 0 <= i < c.len() implies !is_white_space(#[trigger] c[i]) && c[i]
            != '#' by {
            if i < cur.len() {
                assert(c[i] == cur[i]);
            }
        }
        lemma_words_from_are_tokens(rest.skip(1), c, done);
        assert(words_from(rest, cur, done) == words_from(rest.skip(1), c, done));
    }
}

proof fn lemma_before_comment_no_hash(line: Seq<char>)
    ensures
        forall|i: int| 0 <= i < before_comment(line).len() ==> before_comment(line)[i] != '#',
    decreases line.len(),
{
    if line.len() > 0 && line[0] != '#' {
        lemma_before_comment_no_hash(line.skip(1));
        let b = before_comment(line);
        assert forall|i: int| 0 <= i < b.len() implies b[i] != '#' by {
            if i > 0 {
                assert(b[i] == before_comment(line.skip(1))[i - 1]);
            }
        }
    }
}

/// Every PPM token is nonempty and holds no blank and no `'#'`.
pub proof fn lemma_tokens_are_words(ls: Seq<Seq<char>>, n: int)
    requires
        n <= ls.len(),
    ensures
        forall|k: int|
            0 <= k < tokens_upto(ls, n).len() ==> is_token(#[trigger] tokens_upto(ls, n)[k]),
    decreases n,
{
    if n > 0 {
        lemma_tokens_are_words(ls, n - 1);
        let b = before_comment(ls[n - 1]);
        lemma_before_comment_no_hash(ls[n - 1]);
        lemma_words_from_are_tokens(b, seq![], seq![]);
        let p = tokens_upto(ls, n - 1);
        let w = words(b);
        assert forall|k: int| 0 <= k < tokens_upto(ls, n).len() implies is_token(
            #[trigger] tokens_upto(ls, n)[k],
        ) by {
            if k < p.len() {
                assert(tokens_upto(ls, n)[k] == p[k]);
            } else {
                assert(tokens_upto(ls, n)[k] == w[k - p.len()]);
            }
        }
    }
}

/// The length of `before_comment(line)`: the position of the first `'#'`, or the length.
fn comment_start(line: &Vec<char>) -> (e: usize)
    ensures
        e <= line.len(),
        line@.take(e as int) == before_comment(line@),
{
    let mut i: usize = 0;
    assert(line@.skip(0) =~= line@);
    assert(line@.take(0) + before_comment(line@) =~= before_comment(line@));
    while i < line.len() && line[i] != '#'
        invariant
            i <= line.len(),
            before_comment(line@) == line@.take(i as int) + before_comment(line@.skip(i as int)),
        decreases line.len() - i,
    {
        let ghost r = line@.skip(i as int);
        assert(r[0] == line@[i as int]);
        assert(r.skip(1) =~= line@.skip(i + 1));
        assert(line@.take(i + 1) =~= line@.take(i as int) + seq![r[0]]);
        i = i + 1;
    }
    let ghost r = line@.skip(i as int);
    if i < line.len() {
        assert(r[0] == line@[i as int]);
    }
    assert(line@.take(i as int) + Seq::<char>::empty() =~= line@.take(i as int));
    i
}

/// Appends the words of `line[..end]` to `out`.
fn push_words(line: &Vec<char>, end: usize, out: &mut Vec<Vec<char>>)
    requires
        end <= line.len(),
    ensures
        char_rows(final(out)@) == char_rows(old(out)@) + words(line@.take(end as int)),
{
    let ghost s = line@.take(end as int);
    let ghost start = char_rows(out@);
    let mut cur: Vec<char> = Vec::new();
    let mut done: Vec<Vec<char>> = Vec::new();
    let mut i: usize = 0;
    assert(s.skip(0) =~= s);
    assert(char_rows(done@) =~= Seq::<Seq<char>>::empty());
    while i < end
        invariant
            i <= end <= line.len(),
            s == line@.take(end as int),
            words_from(s.skip(i as int), cur@, char_rows(done@)) == words(s),
        decreases end - i,
    {
        let ghost r = s.skip(i as int);
        assert(r[0] == line@[i as int]);
        assert(r.skip(1) =~= s.skip(i + 1));
        let c = line[i];
        if is_whitespace(c) {
            if cur.len() > 0 {
                let ghost before = char_rows(done@);
                let ghost w = cur@;
                done.push(cur);
                assert(char_rows(done@) =~= before.push(w));
                cur = Vec::new();
            }
            assert(cur@ =~= Seq::<char>::empty());
        } else {
            cur.push(c);
        }
        i = i + 1;
    }
    assert(s.skip(i as int).len() == 0);
    if cur.len() > 0 {
        let ghost before = char_rows(done@);
        let ghost w = cur@;
        done.push(cur);
        assert(char_rows(done@) =~= before.push(w));
    }
    let mut j: usize = 0;
    let ghost all = char_rows(done@);
    while j < done.len()
        invariant
            j <= done.len(),
            all == char_rows(done@),
            char_rows(out@) == start + all.take(j as int),
        decreases done.len() - j,
    {
        let w = done[j].clone();
        let ghost before = char_rows(out@);
        out.push(w);
        assert(char_rows(out@) =~= before.push(all[j as int]));
        assert(all.take(j + 1) =~= all.take(j as int).push(all[j as int]));
        j = j + 1;
    }
    assert(all.take(done.len() as int) =~= all);
}

/// The tokens of a PPM text, each as its characters.
pub fn token_chars(text: &str) -> (toks: Vec<Vec<char>>)
    ensures
        char_rows(toks@) == ppm_token_seq(text@),
{
    let chars = chars_of(text);
    let ls = split_lines(&chars);
    let ghost lv = lines(text@);
    let mut toks: Vec<Vec<char>> = Vec::new();
    let mut k: usize = 0;
    assert(char_rows(toks@) =~= Seq::<Seq<char>>::empty());
    while k < ls.len()
        invariant
            k <= ls.len(),
            lv == lines(text@),
            char_rows(ls@) == lv,
            char_rows(toks@) == tokens_upto(lv, k as int),
        decreases ls.len() - k,
    {
        let line = &ls[k];
        assert(lv[k as int] == line@);
        let e = comment_start(line);
        push_words(line, e, &mut toks);
        k = k + 1;
    }
    toks
}

/// The tokens of a plain (P3) PPM text: blank-separated words, with
/// everything from a `#` to the end of its line left out.
pub fn ppm_tokens(text: &str) -> (toks: Vec<String>)
    ensures
        string_views(toks@) == ppm_token_seq(text@),
        forall|k: int| 0 <= k < toks.len() ==> is_token(#[trigger] toks@[k]@),
{
    let tc = token_chars(text);
    let mut toks: Vec<String> = Vec::new();
    let mut j: usize = 0;
    let ghost all = char_rows(tc@);
    assert(string_views(toks@) =~= all.take(0));
    while j < tc.len()
        invariant
            j <= tc.len(),
            all == char_rows(tc@),
            string_views(toks@) == all.take(j as int),
        decreases tc.len() - j,
    {
        let t = string_from_chars(&tc[j], 0, tc[j].len());
        assert(tc@[j as int]@.subrange(0, tc@[j as int]@.len() as int) =~= tc@[j as int]@);
        let ghost before = string_views(toks@);
        toks.push(t);
        assert(string_views(toks@) =~= before.push(all[j as int]));
        assert(all.take(j + 1) =~= all.take(j as int).push(all[j as int]));
        j = j + 1;
    }
    assert(all.take(tc.len() as int) =~= all);
    proof {
        let lv = lines(text@);
        lemma_tokens_are_words(lv, lv.len() as int);
        assert forall|k: int| 0 <= k < toks.len() implies is_token(#[trigger] toks@[k]@) by {
            assert(toks@[k]@ == string_views(toks@)[k]);
        }
    }
    toks
}


/// An ASCII decimal digit.
pub open spec fn is_digit(c: char) -> bool {
    48 <= c as u32 <= 57
}

pub open spec fn digit_value(c: char) -> nat {
    (c as u32 - 48) as nat
}

/// The number that the decimal digits `d` write.
pub open spec fn digits_value(d: Seq<char>) -> nat
    decreases d.len(),
{
    if d.len() == 0 {
        0
    } else {
        digits_value(d.drop_last()) * 10 + digit_value(d.last())
    }
}

/// The digits of an unsigned number: one leading `'+'` is allowed.
pub open spec fn unsigned_digits(s: Seq<char>) -> Seq<char> {
    if s.len() > 0 && s[0] == '+' {
        s.skip(1)
    } else {
        s
    }
}

/// The value of `s` read as a `usize` the way `str::parse::<usize>` reads it:
/// an optional `'+'`, then one or more decimal digits, with a value that fits.
pub open spec fn usize_text_value(s: Seq<char>) -> Option<nat> {
    let d = unsigned_digits(s);
    if d.len() > 0 && (forall|i: int| 0 <= i < d.len() ==> is_digit(#[trigger] d[i]))
        && digits_value(d) <= usize::MAX {
        Some(digits_value(d))
    } else {
        None
    }
}

proof fn lemma_digits_value_grows(d: Seq<char>, k: int)
    requires
        0 <= k <= d.len(),
    ensures
        digits_value(d.take(k)) <= digits_value(d),
    decreases d.len(),
{
    if k < d.len() {
        assert(d.drop_last().take(k) =~= d.take(k));
        lemma_digits_value_grows(d.drop_last(), k);
    } else {
        assert(d.take(k) =~= d);
    }
}

/// Reads a `usize` from its decimal text, as `str::parse::<usize>` does.
pub fn parse_usize_chars(t: &Vec<char>) -> (r: Option<usize>)
    ensures
        match r {
            Some(v) => usize_text_value(t@) == Some(v as nat),
            None => usize_text_value(t@) is None,
        },
{
    let n = t.len();
    let start: usize = if n > 0 && t[0] == '+' {
        1
    } else {
        0
    };
    let ghost d = unsigned_digits(t@);
    assert(d =~= t@.skip(start as int));
    if start == n {
        return None;
    }
    let mut acc: usize = 0;
    let mut i = start;
    assert(d.take(0) =~= Seq::<char>::empty());
    while i < n
        invariant
            start <= i <= n == t.len(),
            d == t@.skip(start as int),
            d == unsigned_digits(t@),
            forall|j: int| 0 <= j < i - start ==> is_digit(#[trigger] d[j]),
            acc as nat == digits_value(d.take(i - start)),
        decreases n - i,
    {
        let c = t[i];
        assert(d[i - start] == c);
        let u = c as u32;
        if u < 48 || u > 57 {
            assert(!is_digit(d[i - start]));
            return None;
        }
        let dg = (u - 48) as usize;
        let ghost k = i - start;
        assert(d.take(k + 1).drop_last() =~= d.take(k));
        assert(d.take(k + 1).last() == c);
        assert(digits_value(d.take(k + 1)) == digits_value(d.take(k)) * 10 + dg);
        match acc.checked_mul(10) {
            None => {
                proof {
                    if forall|j: int| 0 <= j < d.len() ==> is_digit(#[trigger] d[j]) {
                        lemma_digits_value_grows(d, k + 1);
                    }
                }
                return None;
            },
            Some(m) => match m.checked_add(dg) {
                None => {
                    proof {
                        if forall|j: int| 0 <= j < d.len() ==> is_digit(#[trigger] d[j]) {
                            lemma_digits_value_grows(d, k + 1);
                        }
                    }
                    return None;
                },
                Some(a) => {
                    acc = a;
                },
            },
        }
        i = i + 1;
    }
    assert(d.take(n - start) =~= d);
    Some(acc)
}

/// A field of a PPM header or pixel.
#[derive(Clone, Copy, Debug, PartialEq, Eq, Structural)]
pub enum PpmField {
    Width,
    Height,
    MaxValue,
    Red,
    Green,
    Blue,
}

/// Why a PPM material mask was refused.
#[derive(Clone, Copy, Debug, PartialEq, Eq, Structural)]
pub enum MaskError {
    /// The text has no token at all.
    Empty,
    /// The first token is not `P3`.
    NotPlainPpm,
    /// The text ends before this field.
    Missing(PpmField),
    /// This field is not a decimal number.
    Invalid(PpmField),
    /// The image size differs from the grid size.
    SizeMismatch { width: usize, height: usize, nx: usize, nz: usize },
    /// The maximum channel value is 0 or above 255.
    BadMaxValue,
    /// A channel exceeds the declared maximum.
    ChannelTooLarge { field: PpmField, raw: usize, max_value: usize },
    /// No material is given for the colour of this pixel.
    UnmappedColor { r: u8, g: u8, b: u8, pixel: usize },
    /// The material of colour-table entry `entry` has a wave speed that is not positive.
    NonPositiveSpeed { entry: usize },
    /// Tokens follow the last pixel.
    ExtraData,
}

/// The value of the token at `i`, read as field `field`.
pub open spec fn field_value(toks: Seq<Seq<char>>, i: int, field: PpmField) -> Result<
    nat,
    MaskError,
> {
    if i < 0 || i >= toks.len() {
        Err(MaskError::Missing(field))
    } else {
        match usize_text_value(toks[i]) {
            None => Err(MaskError::Invalid(field)),
            Some(v) => Ok(v),
        }
    }
}

/// A channel value `raw` out of `max_value`, rescaled to `0..=255` with rounding.
pub open spec fn scale_channel(raw: nat, max_value: nat) -> nat {
    (raw * 255 + max_value / 2) / max_value
}

/// Reads a PPM number: missing and malformed values are told apart.
pub fn parse_ppm_usize(value: Option<&Vec<char>>, field: PpmField) -> (r: Result<usize, MaskError>)
    ensures
        match value {
            None => r == Err::<usize, MaskError>(MaskError::Missing(field)),
            Some(t) => match usize_text_value(t@) {
                None => r == Err::<usize, MaskError>(MaskError::Invalid(field)),
                Some(v) => r == Ok::<usize, MaskError>(v as usize),
            },
        },
{
    match value {
        None => Err(MaskError::Missing(field)),
        Some(t) => match parse_usize_chars(t) {
            None => Err(MaskError::Invalid(field)),
            Some(v) => Ok(v),
        },
    }
}

/// Whether rescaling the channel in `value` stays within `usize` and divides
/// by a nonzero maximum, whenever the channel does not exceed the maximum.
pub open spec fn channel_in_range(value: Option<&Vec<char>>, max_value: nat) -> bool {
    match value {
        None => true,
        Some(t) => match usize_text_value(t@) {
            None => true,
            Some(raw) => raw <= max_value ==> (0 < max_value && raw * 255 + max_value / 2
                <= usize::MAX),
        },
    }
}

/// Reads one colour channel and rescales it from `0..=max_value` to `0..=255`.
pub fn parse_ppm_color(value: Option<&Vec<char>>, max_value: usize, field: PpmField) -> (r: Result<
    u8,
    MaskError,
>)
    requires
        channel_in_range(value, max_value as nat),
    ensures
        match value {
            None => r == Err::<u8, MaskError>(MaskError::Missing(field)),
            Some(t) => match usize_text_value(t@) {
                None => r == Err::<u8, MaskError>(MaskError::Invalid(field)),
                Some(raw) => if raw > max_value {
                    r == Err::<u8, MaskError>(
                        MaskError::ChannelTooLarge { field, raw: raw as usize, max_value },
                    )
                } else {
                    scale_channel(raw, max_value as nat) <= 255 && r == Ok::<u8, MaskError>(
                        scale_channel(raw, max_value as nat) as u8,
                    )
                },
            },
        },
{
    let raw = parse_ppm_usize(value, field)?;
    if raw > max_value {
        return Err(MaskError::ChannelTooLarge { field, raw, max_value });
    }
    proof {
        lemma_scale_channel_bounds(raw as nat, max_value as nat);
        assert(raw * 255 + max_value / 2 <= usize::MAX);
    }
    let scaled = (raw * 255 + max_value / 2) / max_value;
    Ok(scaled as u8)
}

/// The darkest channel value rescales to 0 and the brightest to 255.
pub proof fn lemma_scale_channel_ends(max_value: nat)
    requires
        0 < max_value,
    ensures
        scale_channel(0, max_value) == 0,
        scale_channel(max_value, max_value) == 255,
{
    assert((max_value / 2) / max_value == 0) by (nonlinear_arith)
        requires
            0 < max_value,
    ;
    assert((max_value * 255 + max_value / 2) / max_value == 255) by (nonlinear_arith)
        requires
            0 < max_value,
    {
        vstd::arithmetic::div_mod::lemma_fundamental_div_mod_converse(
            (max_value * 255 + max_value / 2) as int,
            max_value as int,
            255,
            (max_value / 2) as int,
        );
    }
}

/// Rescaling keeps the order of channel values.
pub proof fn lemma_scale_channel_monotone(a: nat, b: nat, max_value: nat)
    requires
        0 < max_value,
        a <= b,
    ensures
        scale_channel(a, max_value) <= scale_channel(b, max_value),
{
    assert(a * 255 + max_value / 2 <= b * 255 + max_value / 2) by (nonlinear_arith)
        requires
            a <= b,
    ;
    vstd::arithmetic::div_mod::lemma_div_is_ordered(
        (a * 255 + max_value / 2) as int,
        (b * 255 + max_value / 2) as int,
        max_value as int,
    );
}

/// A rescaled channel never exceeds 255.
pub proof fn lemma_scale_channel_bounds(raw: nat, max_value: nat)
    requires
        0 < max_value,
        raw <= max_value,
    ensures
        scale_channel(raw, max_value) <= 255,
{
    lemma_scale_channel_ends(max_value);
    assert(raw * 255 <= max_value * 255) by (nonlinear_arith)
        requires
            raw <= max_value,
    ;
    assert(raw * 255 + max_value / 2 < max_value * 256) by (nonlinear_arith)
        requires
            raw * 255 <= max_value * 255,
            0 < max_value,
    ;
    assert((raw * 255 + max_value / 2) / max_value < 256) by (nonlinear_arith)
        requires
            raw * 255 + max_value / 2 < max_value * 256,
            0 < max_value,
    ;
}


/// One entry of a colour table: pixels of colour `rgb` are material
/// `material_id`, whose wave speed is positive exactly when `speed_positive`.
pub struct ColorMaterial {
    pub rgb: (u8, u8, u8),
    pub material_id: String,
    pub speed_positive: bool,
}

/// The last entry of `colors` for colour `rgb`: a later entry overrides an earlier one.
pub open spec fn last_entry_for(colors: Seq<ColorMaterial>, rgb: (u8, u8, u8)) -> Option<int>
    decreases colors.len(),
{
    if colors.len() == 0 {
        None
    } else if colors.last().rgb == rgb {
        Some(colors.len() - 1)
    } else {
        last_entry_for(colors.drop_last(), rgb)
    }
}

/// The entry chosen for a colour has exactly that colour in all three
/// channels, and no later entry has it; no entry is chosen only when no entry
/// has the colour.
pub proof fn lemma_last_entry_for_exact(colors: Seq<ColorMaterial>, rgb: (u8, u8, u8))
    ensures
        match last_entry_for(colors, rgb) {
            Some(k) => {
                &&& 0 <= k < colors.len()
                &&& colors[k].rgb.0 == rgb.0
                &&& colors[k].rgb.1 == rgb.1
                &&& colors[k].rgb.2 == rgb.2
                &&& colors[k].rgb == rgb
                &&& forall|j: int| k < j < colors.len() ==> #[trigger] colors[j].rgb != rgb
            },
            None => forall|j: int| 0 <= j < colors.len() ==> #[trigger] colors[j].rgb != rgb,
        },
    decreases colors.len(),
{
    if colors.len() > 0 {
        let pre = colors.drop_last();
        lemma_last_entry_for_exact(pre, rgb);
        if colors.last().rgb != rgb {
            assert forall|j: int| 0 <= j < colors.len() - 1 implies colors[j] == pre[j] by {}
        }
    }
}

/// The rescaled channel in token `i`.
pub open spec fn channel_value(toks: Seq<Seq<char>>, i: int, max_value: nat, field: PpmField) -> Result<
    u8,
    MaskError,
> {
    match field_value(toks, i, field) {
        Err(e) => Err(e),
        Ok(raw) => if raw > max_value {
            Err(MaskError::ChannelTooLarge { field, raw: raw as usize, max_value: max_value as usize })
        } else {
            Ok(scale_channel(raw, max_value) as u8)
        },
    }
}

/// The colour-table entry of pixel `p`, whose channels are tokens `4 + 3p` to `6 + 3p`.
pub open spec fn pixel_entry(
    toks: Seq<Seq<char>>,
    max_value: nat,
    colors: Seq<ColorMaterial>,
    p: int,
) -> Result<int, MaskError> {
    let base = 4 + 3 * p;
    match channel_value(toks, base, max_value, PpmField::Red) {
        Err(e) => Err(e),
        Ok(r) => match channel_value(toks, base + 1, max_value, PpmField::Green) {
            Err(e) => Err(e),
            Ok(g) => match channel_value(toks, base + 2, max_value, PpmField::Blue) {
                Err(e) => Err(e),
                Ok(b) => match last_entry_for(colors, (r, g, b)) {
                    None => Err(MaskError::UnmappedColor { r, g, b, pixel: p as usize }),
                    Some(k) => if colors[k].speed_positive {
                        Ok(k)
                    } else {
                        Err(MaskError::NonPositiveSpeed { entry: k as usize })
                    },
                },
            },
        },
    }
}

/// A pixel is given the material of an entry whose colour is exactly the
/// pixel's colour, and of the last such entry.
pub proof fn lemma_pixel_entry_colour(
    toks: Seq<Seq<char>>,
    max_value: nat,
    colors: Seq<ColorMaterial>,
    p: int,
)
    requires
        pixel_entry(toks, max_value, colors, p) is Ok,
    ensures
        ({
            let k = pixel_entry(toks, max_value, colors, p)->Ok_0;
            let base = 4 + 3 * p;
            &&& 0 <= k < colors.len()
            &&& channel_value(toks, base, max_value, PpmField::Red) == Ok::<u8, MaskError>(colors[k].rgb.0)
            &&& channel_value(toks, base + 1, max_value, PpmField::Green) == Ok::<u8, MaskError>(
                colors[k].rgb.1,
            )
            &&& channel_value(toks, base + 2, max_value, PpmField::Blue) == Ok::<u8, MaskError>(
                colors[k].rgb.2,
            )
            &&& forall|j: int| k < j < colors.len() ==> #[trigger] colors[j].rgb != colors[k].rgb
        }),
{
    let base = 4 + 3 * p;
    let r = channel_value(toks, base, max_value, PpmField::Red)->Ok_0;
    let g = channel_value(toks, base + 1, max_value, PpmField::Green)->Ok_0;
    let b = channel_value(toks, base + 2, max_value, PpmField::Blue)->Ok_0;
    lemma_last_entry_for_exact(colors, (r, g, b));
}

/// The colour-table entries of the first `n` pixels, or the first error met.
pub open spec fn pixel_entries(
    toks: Seq<Seq<char>>,
    max_value: nat,
    colors: Seq<ColorMaterial>,
    n: int,
) -> Result<Seq<int>, MaskError>
    decreases n,
{
    if n <= 0 {
        Ok(seq![])
    } else {
        match pixel_entries(toks, max_value, colors, n - 1) {
            Err(e) => Err(e),
            Ok(es) => match pixel_entry(toks, max_value, colors, n - 1) {
                Err(e) => Err(e),
                Ok(k) => Ok(es.push(k)),
            },
        }
    }
}

/// The colour-table entry of every cell of an `nx` by `nz` mask with tokens
/// `toks`, or why the mask is refused.
pub open spec fn mask_entries(
    toks: Seq<Seq<char>>,
    nx: nat,
    nz: nat,
    colors: Seq<ColorMaterial>,
) -> Result<Seq<int>, MaskError> {
    if toks.len() == 0 {
        Err(MaskError::Empty)
    } else if toks[0] != seq!['P', '3'] {
        Err(MaskError::NotPlainPpm)
    } else {
        match field_value(toks, 1, PpmField::Width) {
            Err(e) => Err(e),
            Ok(w) => match field_value(toks, 2, PpmField::Height) {
                Err(e) => Err(e),
                Ok(h) => match field_value(toks, 3, PpmField::MaxValue) {
                    Err(e) => Err(e),
                    Ok(m) => if w != nx || h != nz {
                        Err(
                            MaskError::SizeMismatch {
                                width: w as usize,
                                height: h as usize,
                                nx: nx as usize,
                                nz: nz as usize,
                            },
                        )
                    } else if m == 0 || m > 255 {
                        Err(MaskError::BadMaxValue)
                    } else {
                        match pixel_entries(toks, m, colors, (nx * nz) as int) {
                            Err(e) => Err(e),
                            Ok(es) => if toks.len() > 4 + 3 * (nx * nz) {
                                Err(MaskError::ExtraData)
                            } else {
                                Ok(es)
                            },
                        }
                    },
                },
            },
        }
    }
}

proof fn lemma_pixel_entries_err_stays(
    toks: Seq<Seq<char>>,
    max_value: nat,
    colors: Seq<ColorMaterial>,
    k: int,
    n: int,
)
    requires
        0 <= k <= n,
        pixel_entries(toks, max_value, colors, k) is Err,
    ensures
        pixel_entries(toks, max_value, colors, n) == pixel_entries(toks, max_value, colors, k),
    decreases n - k,
{
    if n > k {
        lemma_pixel_entries_err_stays(toks, max_value, colors, k, n - 1);
    }
}

/// The token at `i`, if the text has one there.
fn token_at(toks: &Vec<Vec<char>>, i: usize) -> (t: Option<&Vec<char>>)
    ensures
        match t {
            Some(v) => i < toks.len() && v@ == toks@[i as int]@,
            None => i >= toks.len(),
        },
{
    if i < toks.len() {
        Some(&toks[i])
    } else {
        None
    }
}

/// The rescaled channel held by token `pos`.
fn read_channel(toks: &Vec<Vec<char>>, pos: usize, max_value: usize, field: PpmField) -> (r: Result<
    u8,
    MaskError,
>)
    requires
        0 < max_value <= 255,
    ensures
        r == channel_value(char_rows(toks@), pos as int, max_value as nat, field),
{
    let t = token_at(toks, pos);
    let ghost tv = char_rows(toks@);
    if pos < toks.len() {
        assert(tv[pos as int] == toks@[pos as int]@);
    }
    proof {
        if let Some(tt) = t {
            if let Some(raw) = usize_text_value(tt@) {
                if raw <= max_value {
                    assert(raw * 255 <= 255 * 255) by (nonlinear_arith)
                        requires
                            raw <= 255,
                    ;
                }
            }
        }
    }
    parse_ppm_color(t, max_value, field)
}

/// The last colour-table entry for `rgb`.
fn find_color(colors: &Vec<ColorMaterial>, rgb: (u8, u8, u8)) -> (k: Option<usize>)
    ensures
        match k {
            Some(k) => last_entry_for(colors@, rgb) == Some(k as int) && k < colors.len(),
            None => last_entry_for(colors@, rgb) is None,
        },
        match k {
            Some(k) => colors@[k as int].rgb == rgb && forall|j: int|
                k < j < colors.len() ==> #[trigger] colors@[j].rgb != rgb,
            None => forall|j: int| 0 <= j < colors.len() ==> #[trigger] colors@[j].rgb != rgb,
        },
{
    proof {
        lemma_last_entry_for_exact(colors@, rgb);
    }
    let mut j = colors.len();
    assert(colors@.take(j as int) =~= colors@);
    while j > 0
        invariant
            j <= colors.len(),
            last_entry_for(colors@, rgb) == last_entry_for(colors@.take(j as int), rgb),
        decreases j,
    {
        let c = &colors[j - 1];
        let ghost pre = colors@.take(j as int);
        assert(pre.drop_last() =~= colors@.take(j - 1));
        assert(pre.last() == colors@[j - 1]);
        if c.rgb.0 == rgb.0 && c.rgb.1 == rgb.1 && c.rgb.2 == rgb.2 {
            assert(c.rgb == rgb);
            assert(last_entry_for(pre, rgb) == Some(j - 1));
            proof {
                lemma_last_entry_for_exact(colors@, rgb);
                assert(last_entry_for(colors@, rgb) == Some(j - 1));
            }
            return Some(j - 1);
        }
        j = j - 1;
    }
    None
}

/// Whether the token `t` is exactly `P3`.
fn is_p3(t: &Vec<char>) -> (b: bool)
    ensures
        b == (t@ == seq!['P', '3']),
{
    if t.len() == 2 && t[0] == 'P' && t[1] == '3' {
        assert(t@ =~= seq!['P', '3']);
        true
    } else {
        if t.len() == 2 {
            assert(t@[0] == t[0] && t@[1] == t[1]);
        }
        false
    }
}

/// Reads the material id of every cell of an `nx` by `nz` grid from a plain
/// (P3) PPM mask: the header gives width, height and maximum channel value,
/// then each pixel's colour names its material through `colors`, row after
/// row. The mask must match the grid, use a maximum in `1..=255`, map every
/// colour, name only materials with a positive wave speed, and end after the
/// last pixel.
pub fn material_ids_from_ppm(text: &str, nx: usize, nz: usize, colors: &Vec<ColorMaterial>) -> (r:
    Result<Vec<String>, MaskError>)
    requires
        nx * nz <= usize::MAX,
    ensures
        match mask_entries(ppm_token_seq(text@), nx as nat, nz as nat, colors@) {
            Ok(es) => r matches Ok(ids) && ids.len() == es.len() && forall|p: int|
                #![trigger ids@[p]]
                0 <= p < ids.len() ==> (0 <= es[p] < colors.len() && ids@[p]@
                    == colors@[es[p]].material_id@),
            Err(e) => r matches Err(e2) && e2 == e,
        },
{
    let toks = token_chars(text);
    let ghost tv = char_rows(toks@);
    if toks.len() == 0 {
        return Err(MaskError::Empty);
    }
    assert(tv[0] == toks@[0]@);
    if !is_p3(&toks[0]) {
        return Err(MaskError::NotPlainPpm);
    }
    proof {
        if toks.len() > 1 {
            assert(tv[1] == toks@[1]@);
        }
        if toks.len() > 2 {
            assert(tv[2] == toks@[2]@);
        }
        if toks.len() > 3 {
            assert(tv[3] == toks@[3]@);
        }
    }
    let width = parse_ppm_usize(token_at(&toks, 1), PpmField::Width)?;
    let height = parse_ppm_usize(token_at(&toks, 2), PpmField::Height)?;
    let max_value = parse_ppm_usize(token_at(&toks, 3), PpmField::MaxValue)?;
    if width != nx || height != nz {
        return Err(MaskError::SizeMismatch { width, height, nx, nz });
    }
    if max_value == 0 || max_value > 255 {
        return Err(MaskError::BadMaxValue);
    }
    let n = nx * nz;
    let mut ids: Vec<String> = Vec::new();
    let ghost mut es: Seq<int> = seq![];
    let mut p: usize = 0;
    let mut pos: usize = 4;
    while p < n
        invariant
            toks.len() >= 4,
            tv == ppm_token_seq(text@),
            tv == char_rows(toks@),
            tv.len() > 0,
            tv[0] == seq!['P', '3'],
            field_value(tv, 1, PpmField::Width) == Ok::<nat, MaskError>(nx as nat),
            field_value(tv, 2, PpmField::Height) == Ok::<nat, MaskError>(nz as nat),
            field_value(tv, 3, PpmField::MaxValue) == Ok::<nat, MaskError>(max_value as nat),
            0 < max_value <= 255,
            n == nx * nz,
            p <= n,
            pos == 4 + 3 * p,
            pos <= toks.len(),
            pixel_entries(tv, max_value as nat, colors@, p as int) == Ok::<Seq<int>, MaskError>(es),
            ids.len() == es.len() == p,
            forall|q: int| 0 <= q < p ==> 0 <= #[trigger] es[q] < colors.len(),
            forall|q: int| 0 <= q < p ==> #[trigger] ids@[q]@ == colors@[es[q]].material_id@,
        decreases n - p,
    {
        let r = match read_channel(&toks, pos, max_value, PpmField::Red) {
            Ok(v) => v,
            Err(e) => {
                proof {
                    lemma_pixel_entries_err_stays(tv, max_value as nat, colors@, p + 1, n as int);
                }
                return Err(e);
            },
        };
        let g = match read_channel(&toks, pos + 1, max_value, PpmField::Green) {
            Ok(v) => v,
            Err(e) => {
                proof {
                    lemma_pixel_entries_err_stays(tv, max_value as nat, colors@, p + 1, n as int);
                }
                return Err(e);
            },
        };
        let b = match read_channel(&toks, pos + 2, max_value, PpmField::Blue) {
            Ok(v) => v,
            Err(e) => {
                proof {
                    lemma_pixel_entries_err_stays(tv, max_value as nat, colors@, p + 1, n as int);
                }
                return Err(e);
            },
        };
        let k = match find_color(colors, (r, g, b)) {
            Some(k) => k,
            None => {
                proof {
                    lemma_pixel_entries_err_stays(tv, max_value as nat, colors@, p + 1, n as int);
                }
                return Err(MaskError::UnmappedColor { r, g, b, pixel: p });
            },
        };
        if !colors[k].speed_positive {
            proof {
                lemma_pixel_entries_err_stays(tv, max_value as nat, colors@, p + 1, n as int);
            }
            return Err(MaskError::NonPositiveSpeed { entry: k });
        }
        let ghost old_ids = ids@;
        let ghost old_es = es;
        let id = colors[k].material_id.clone();
        assert(id@ == colors@[k as int].material_id@);
        ids.push(id);
        proof {
            es = es.push(k as int);
            assert forall|q: int| 0 <= q < p + 1 implies 0 <= #[trigger] es[q] < colors.len() && ids@[q]@ == colors@[es[q]].material_id@ by {
                if q < p {
                    assert(ids@[q] == old_ids[q]);
                    assert(es[q] == old_es[q]);
                } else {
                    assert(q == p);
                    assert(es[q] == k as int);
                    assert(ids@[q] == id);
                    assert(k < colors.len());
                }
            }
        }
        assert(pixel_entries(tv, max_value as nat, colors@, p + 1) == Ok::<Seq<int>, MaskError>(es));
        p = p + 1;
        pos = pos + 3;
    }
    assert(p as int == (nx as nat * nz as nat) as int);
    if pos < toks.len() {
        return Err(MaskError::ExtraData);
    }
    assert(mask_entries(tv, nx as nat, nz as nat, colors@) == Ok::<Seq<int>, MaskError>(es));
    Ok(ids)
}

} // verus!
