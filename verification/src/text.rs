use vstd::prelude::*;

verus! {

/// `String::push` (std): appends `ch` to the end of `s`, as its documentation
/// states; this contract is trusted, not proved.
pub assume_specification[ String::push ](s: &mut String, ch: char)
    ensures
        final(s)@ == old(s)@.push(ch),
;

/// Unicode `White_Space`: the characters that `char::is_whitespace`, `str::trim`
/// and `str::split_whitespace` treat as blank.
pub open spec fn is_white_space(c: char) -> bool {
    let u = c as u32;
    ||| 0x09 <= u <= 0x0d
    ||| u == 0x20
    ||| u == 0x85
    ||| u == 0xa0
    ||| u == 0x1680
    ||| 0x2000 <= u <= 0x200a
    ||| u == 0x2028
    ||| u == 0x2029
    ||| u == 0x202f
    ||| u == 0x205f
    ||| u == 0x3000
}

/// Whether `c` is blank (Unicode `White_Space`).
pub fn is_whitespace(c: char) -> (b: bool)
    ensures
        b == is_white_space(c),
{
    let u = c as u32;
    (0x09 <= u && u <= 0x0d) || u == 0x20 || u == 0x85 || u == 0xa0 || u == 0x1680 || (0x2000
        <= u && u <= 0x200a) || u == 0x2028 || u == 0x2029 || u == 0x202f || u == 0x205f || u
        == 0x3000
}

/// `s` without its leading blanks.
pub open spec fn trim_start(s: Seq<char>) -> Seq<char>
    decreases s.len(),
{
    if s.len() > 0 && is_white_space(s[0]) {
        trim_start(s.skip(1))
    } else {
        s
    }
}

/// `s` without its trailing blanks.
pub open spec fn trim_end(s: Seq<char>) -> Seq<char>
    decreases s.len(),
{
    if s.len() > 0 && is_white_space(s.last()) {
        trim_end(s.drop_last())
    } else {
        s
    }
}

/// `s` without leading and trailing blanks, as `str::trim` gives it.
pub open spec fn trim(s: Seq<char>) -> Seq<char> {
    trim_end(trim_start(s))
}

/// Whether every character of `s` is blank.
pub open spec fn all_blank(s: Seq<char>) -> bool {
    forall|i: int| 0 <= i < s.len() ==> is_white_space(#[trigger] s[i])
}

proof fn lemma_trim_start_skip(s: Seq<char>, i: int)
    requires
        0 <= i <= s.len(),
        forall|j: int| 0 <= j < i ==> is_white_space(#[trigger] s[j]),
    ensures
        trim_start(s) == trim_start(s.skip(i)),
    decreases i,
{
    if i > 0 {
        assert(s.skip(1).skip(i - 1) =~= s.skip(i));
        lemma_trim_start_skip(s.skip(1), i - 1);
    } else {
        assert(s.skip(0) =~= s);
    }
}

proof fn lemma_trim_end_take(s: Seq<char>, k: int)
    requires
        0 <= k <= s.len(),
        forall|j: int| k <= j < s.len() ==> is_white_space(#[trigger] s[j]),
    ensures
        trim_end(s) == trim_end(s.take(k)),
    decreases s.len() - k,
{
    if k < s.len() {
        assert(s.drop_last().take(k) =~= s.take(k));
        lemma_trim_end_take(s.drop_last(), k);
    } else {
        assert(s.take(k) =~= s);
    }
}

/// The bounds `[a, b)` of `trim(v[lo..hi])` inside `v`.
pub fn trim_bounds(v: &Vec<char>, lo: usize, hi: usize) -> (r: (usize, usize))
    requires
        lo <= hi <= v.len(),
    ensures
        lo <= r.0 <= r.1 <= hi,
        v@.subrange(r.0 as int, r.1 as int) == trim(v@.subrange(lo as int, hi as int)),
{
    let ghost s = v@.subrange(lo as int, hi as int);
    let mut a = lo;
    while a < hi && is_whitespace(v[a])
        invariant
            lo <= a <= hi <= v.len(),
            s == v@.subrange(lo as int, hi as int),
            forall|j: int| lo <= j < a ==> is_white_space(#[trigger] v@[j]),
        decreases hi - a,
    {
        a = a + 1;
    }
    proof {
        assert forall|j: int| 0 <= j < a - lo implies is_white_space(#[trigger] s[j]) by {
            assert(s[j] == v@[lo + j]);
        }
        lemma_trim_start_skip(s, a - lo);
        assert(s.skip(a - lo) =~= v@.subrange(a as int, hi as int));
        let t = v@.subrange(a as int, hi as int);
        if a < hi {
            assert(t[0] == v@[a as int]);
        } else {
            assert(t.len() == 0);
        }
        assert(trim_start(s) == t);
    }
    let mut b = hi;
    while b > a && is_whitespace(v[b - 1])
        invariant
            lo <= a <= b <= hi <= v.len(),
            forall|j: int| b <= j < hi ==> is_white_space(#[trigger] v@[j]),
        decreases b - a,
    {
        b = b - 1;
    }
    proof {
        let t = v@.subrange(a as int, hi as int);
        assert forall|j: int| b - a <= j < t.len() implies is_white_space(#[trigger] t[j]) by {
            assert(t[j] == v@[a + j]);
        }
        lemma_trim_end_take(t, b - a);
        assert(t.take(b - a) =~= v@.subrange(a as int, b as int));
        let u = v@.subrange(a as int, b as int);
        if b > a {
            assert(u.last() == v@[b - 1]);
        }
    }
    (a, b)
}

/// The characters of `s`, in order.
pub fn chars_of(s: &str) -> (v: Vec<char>)
    ensures
        v@ == s@,
{
    let mut v: Vec<char> = Vec::new();
    for c in it: s.chars()
        invariant
            v@ == it.seq().take(it.index() as int),
            it.seq() == s@,
    {
        v.push(c);
    }
    v
}

/// A string holding exactly the characters `v[lo..hi]`.
pub fn string_from_chars(v: &Vec<char>, lo: usize, hi: usize) -> (s: String)
    requires
        lo <= hi <= v.len(),
    ensures
        s@ == v@.subrange(lo as int, hi as int),
{
    let mut s = String::new();
    let mut i = lo;
    while i < hi
        invariant
            lo <= i <= hi <= v.len(),
            s@ == v@.subrange(lo as int, i as int),
        decreases hi - i,
    {
        s.push(v[i]);
        i = i + 1;
    }
    s
}

/// `line` with the line break removed: one `'\r'` at its end goes, as `str::lines` drops it.
pub open spec fn strip_cr(line: Seq<char>) -> Seq<char> {
    if line.len() > 0 && line.last() == '\r' {
        line.drop_last()
    } else {
        line
    }
}

/// The lines of `rest`, read after the partial line `cur` and the finished lines `done`.
pub open spec fn lines_from(rest: Seq<char>, cur: Seq<char>, done: Seq<Seq<char>>) -> Seq<
    Seq<char>,
>
    decreases rest.len(),
{
    if rest.len() == 0 {
        if cur.len() == 0 {
            done
        } else {
            done.push(cur)
        }
    } else if rest[0] == '\n' {
        lines_from(rest.skip(1), seq![], done.push(strip_cr(cur)))
    } else {
        lines_from(rest.skip(1), cur.push(rest[0]), done)
    }
}

/// The lines of `s` as `str::lines` yields them: split at `'\n'`, a `'\r'` just
/// before a `'\n'` dropped, and no empty line after a final line break.
pub open spec fn lines(s: Seq<char>) -> Seq<Seq<char>> {
    lines_from(s, seq![], seq![])
}

/// The character sequences held by a list of character vectors.
pub open spec fn char_rows(rows: Seq<Vec<char>>) -> Seq<Seq<char>> {
    rows.map_values(|r: Vec<char>| r@)
}


/// The partial last line left after reading `rest` from the partial line `cur`.
pub open spec fn lines_cur(rest: Seq<char>, cur: Seq<char>) -> Seq<char>
    decreases rest.len(),
{
    if rest.len() == 0 {
        cur
    } else if rest[0] == '\n' {
        lines_cur(rest.skip(1), seq![])
    } else {
        lines_cur(rest.skip(1), cur.push(rest[0]))
    }
}

/// The lines finished by a line break while reading `rest`.
pub open spec fn lines_done(rest: Seq<char>, cur: Seq<char>, done: Seq<Seq<char>>) -> Seq<
    Seq<char>,
>
    decreases rest.len(),
{
    if rest.len() == 0 {
        done
    } else if rest[0] == '\n' {
        lines_done(rest.skip(1), seq![], done.push(strip_cr(cur)))
    } else {
        lines_done(rest.skip(1), cur.push(rest[0]), done)
    }
}

proof fn lemma_lines_split(rest: Seq<char>, cur: Seq<char>, done: Seq<Seq<char>>)
    ensures
        lines_from(rest, cur, done) == (if lines_cur(rest, cur).len() == 0 {
            lines_done(rest, cur, done)
        } else {
            lines_done(rest, cur, done).push(lines_cur(rest, cur))
        }),
        lines_from(rest.push('\n'), cur, done) == lines_done(rest, cur, done).push(
            strip_cr(lines_cur(rest, cur)),
        ),
        lines_done(rest, cur, done).len() >= done.len(),
        rest.len() > 0 && rest.last() == '\n' ==> lines_cur(rest, cur).len() == 0
            && lines_done(rest, cur, done).len() > done.len(),
        rest.len() > 0 && rest.last() != '\n' ==> lines_cur(rest, cur).len() > 0 && lines_cur(
            rest,
            cur,
        ).last() == rest.last(),
    decreases rest.len(),
{
    let r = rest.push('\n');
    assert(r[0] == if rest.len() == 0 { '\n' } else { rest[0] });
    if rest.len() == 0 {
        assert(r.skip(1) =~= Seq::<char>::empty());
        let e = Seq::<char>::empty();
        assert(lines_from(e, seq![], done.push(strip_cr(cur))) == done.push(strip_cr(cur)));
        assert(lines_from(r, cur, done) == lines_from(r.skip(1), seq![], done.push(strip_cr(cur))));
    } else {
        assert(r.skip(1) =~= rest.skip(1).push('\n'));
        assert(r[0] == rest[0]);
        if rest[0] == '\n' {
            lemma_lines_split(rest.skip(1), seq![], done.push(strip_cr(cur)));
            assert(lines_from(r, cur, done) == lines_from(r.skip(1), seq![], done.push(strip_cr(cur))));
        } else {
            lemma_lines_split(rest.skip(1), cur.push(rest[0]), done);
            assert(lines_from(r, cur, done) == lines_from(r.skip(1), cur.push(rest[0]), done));
        }
        if rest.len() > 1 {
            assert(rest.skip(1).last() == rest.last());
        } else {
            assert(rest.skip(1).len() == 0);
        }
    }
}

/// The lines of `text` followed by one more line break: the same lines, the
/// last one with a final `'\r'` removed, or one more empty line when `text`
/// is empty or already ends with a line break.
pub proof fn lemma_lines_final_newline(text: Seq<char>)
    ensures
        text.len() == 0 ==> lines(text) == Seq::<Seq<char>>::empty() && lines(text.push('\n'))
            == seq![Seq::<char>::empty()],
        text.len() > 0 && text.last() == '\n' ==> lines(text).len() > 0 && lines(text.push('\n'))
            == lines(text).push(Seq::<char>::empty()),
        text.len() > 0 && text.last() != '\n' ==> lines(text).len() > 0 && lines(text.push('\n'))
            == lines(text).drop_last().push(strip_cr(lines(text).last())) && lines(text).last()
            .last() == text.last(),
{
    lemma_lines_split(text, seq![], seq![]);
    let c = lines_cur(text, seq![]);
    let d = lines_done(text, seq![], seq![]);
    if text.len() == 0 {
        assert(strip_cr(Seq::<char>::empty()) =~= Seq::<char>::empty());
    } else if text.last() == '\n' {
        assert(c =~= Seq::<char>::empty());
        assert(strip_cr(c) =~= Seq::<char>::empty());
    } else {
        assert(d.push(c).drop_last() =~= d);
    }
}

/// Removing a trailing `'\r'` keeps what `trim` gives.
pub proof fn lemma_trim_push_cr(f: Seq<char>)
    ensures
        trim(f.push('\r')) == trim(f),
{
    lemma_trim_start_push(f, '\r');
    if trim_start(f).len() == 0 {
        let one = seq!['\r'];
        assert(one.skip(1) =~= Seq::<char>::empty());
        assert(trim_start(one) == trim_start(Seq::<char>::empty()));
    } else {
        let t = trim_start(f);
        assert(t.push('\r').drop_last() =~= t);
    }
}

proof fn lemma_trim_start_push(f: Seq<char>, c: char)
    ensures
        trim_start(f.push(c)) == (if trim_start(f).len() == 0 {
            trim_start(seq![c])
        } else {
            trim_start(f).push(c)
        }),
    decreases f.len(),
{
    if f.len() == 0 {
        assert(f.push(c) =~= seq![c]);
    } else {
        assert(f.push(c)[0] == f[0]);
        if is_white_space(f[0]) {
            assert(f.push(c).skip(1) =~= f.skip(1).push(c));
            lemma_trim_start_push(f.skip(1), c);
        }
    }
}

/// The lines of `v`, each as its characters.
pub fn split_lines(v: &Vec<char>) -> (ls: Vec<Vec<char>>)
    ensures
        char_rows(ls@) == lines(v@),
{
    let mut done: Vec<Vec<char>> = Vec::new();
    let mut cur: Vec<char> = Vec::new();
    let mut i: usize = 0;
    assert(v@.skip(0) =~= v@);
    assert(char_rows(done@) =~= Seq::<Seq<char>>::empty());
    while i < v.len()
        invariant
            i <= v.len(),
            lines_from(v@.skip(i as int), cur@, char_rows(done@)) == lines(v@),
        decreases v.len() - i,
    {
        assert(v@.skip(i as int).skip(1) =~= v@.skip(i + 1));
        assert(v@.skip(i as int)[0] == v@[i as int]);
        if v[i] == '\n' {
            let ghost before = cur@;
            let ghost done_before = char_rows(done@);
            let n = cur.len();
            if n > 0 && cur[n - 1] == '\r' {
                cur.pop();
            }
            assert(cur@ == strip_cr(before));
            let line = cur;
            done.push(line);
            assert(char_rows(done@) =~= done_before.push(strip_cr(before)));
            cur = Vec::new();
        } else {
            cur.push(v[i]);
        }
        i = i + 1;
    }
    assert(v@.skip(i as int).len() == 0);
    if cur.len() > 0 {
        let ghost done_before = char_rows(done@);
        let ghost last = cur@;
        done.push(cur);
        assert(char_rows(done@) =~= done_before.push(last));
    }
    done
}

} // verus!
