//! The lenient reader of ticket files and file names.
//!
//! File names have the shape `PREFIX-NUMBER[sep]Title`. A ticket file is read
//! line by line: an optional frontmatter block between `---` lines, then a
//! header area (heading `# ...`, status `* Status: ...`, other text is the
//! preamble), then comments, each opened by a line `## Author (YYYY-MM-DD[ HH:MM])`.
use vstd::prelude::*;
use crate::text::{
    is_ws, is_ws_char, is_nd, is_nd_char, is_ascii_upper, is_ascii_digit, chars_of,
    string_from_chars, slice_chars, push_all, chars_eq, starts_with, has_at, ws_end, lemma_ws_end,
    skip_ws, all_ws, trim, trim_start, trim_chars, find_char, lemma_find_char, lines, split_lines,
    join, join_chars, nl, views, parse_u32_spec, parse_unsigned,
};
use crate::ticket::{find_char_from, Comment, CommentView, Ticket, TicketId, TicketView, comment_views};
use crate::timestamp::{
    Timestamp, date_time_shape, timestamp_from_text, parse_minute_text, is_digit_slot,
};

verus! {

// ---------------------------------------------------------------------------
// Character runs
// ---------------------------------------------------------------------------
pub open spec fn is_upper_or_digit(c: char) -> bool {
    is_ascii_upper(c) || is_ascii_digit(c)
}

/// End of the run of `[A-Z0-9]` characters that starts at `i`.
pub open spec fn updig_end(s: Seq<char>, i: int) -> int
    decreases s.len() - i,
{
    if 0 <= i < s.len() && is_upper_or_digit(s[i]) {
        updig_end(s, i + 1)
    } else {
        i
    }
}

/// End of the run of decimal digits (any script) that starts at `i`.
pub open spec fn nd_end(s: Seq<char>, i: int) -> int
    decreases s.len() - i,
{
    if 0 <= i < s.len() && is_nd(s[i]) {
        nd_end(s, i + 1)
    } else {
        i
    }
}

pub proof fn lemma_updig_end(s: Seq<char>, i: int)
    requires
        0 <= i <= s.len(),
    ensures
        i <= updig_end(s, i) <= s.len(),
        forall|k: int| i <= k < updig_end(s, i) ==> is_upper_or_digit(#[trigger] s[k]),
        updig_end(s, i) == s.len() || !is_upper_or_digit(s[updig_end(s, i)]),
    decreases s.len() - i,
{
    if i < s.len() && is_upper_or_digit(s[i]) {
        lemma_updig_end(s, i + 1);
    }
}

pub proof fn lemma_nd_end(s: Seq<char>, i: int)
    requires
        0 <= i <= s.len(),
    ensures
        i <= nd_end(s, i) <= s.len(),
        forall|k: int| i <= k < nd_end(s, i) ==> is_nd(#[trigger] s[k]),
        nd_end(s, i) == s.len() || !is_nd(s[nd_end(s, i)]),
    decreases s.len() - i,
{
    if i < s.len() && is_nd(s[i]) {
        lemma_nd_end(s, i + 1);
    }
}

fn skip_updig(s: &Vec<char>, i: usize) -> (e: usize)
    requires
        i <= s.len(),
    ensures
        e as int == updig_end(s@, i as int),
        i <= e <= s.len(),
{
    proof {
        lemma_updig_end(s@, i as int);
    }
    let mut e = i;
    while e < s.len() && (('A' <= s[e] && s[e] <= 'Z') || ('0' <= s[e] && s[e] <= '9'))
        invariant
            i <= e <= s.len(),
            updig_end(s@, e as int) == updig_end(s@, i as int),
        decreases s.len() - e,
    {
        e = e + 1;
    }
    e
}

fn skip_nd(s: &Vec<char>, i: usize) -> (e: usize)
    requires
        i <= s.len(),
    ensures
        e as int == nd_end(s@, i as int),
        i <= e <= s.len(),
{
    proof {
        lemma_nd_end(s@, i as int);
    }
    let mut e = i;
    while e < s.len() && is_nd_char(s[e])
        invariant
            i <= e <= s.len(),
            nd_end(s@, e as int) == nd_end(s@, i as int),
        decreases s.len() - e,
    {
        e = e + 1;
    }
    e
}

// ---------------------------------------------------------------------------
// File names
// ---------------------------------------------------------------------------
/// The parts of a file stem matched by `^([A-Z][A-Z0-9]*)-(\d+)[\s\-]?(.*)$`:
/// prefix, digits, and the rest (which may not hold a line break).
pub open spec fn filename_match(s: Seq<char>) -> Option<(Seq<char>, Seq<char>, Seq<char>)> {
    if s.len() == 0 || !is_ascii_upper(s[0]) {
        None
    } else {
        let p = updig_end(s, 1);
        if p >= s.len() || s[p] != '-' {
            None
        } else {
            let e = nd_end(s, p + 1);
            if e <= p + 1 {
                None
            } else {
                let r = if e < s.len() && (is_ws(s[e]) || s[e] == '-') {
                    e + 1
                } else {
                    e
                };
                let rest = s.skip(r);
                if find_char(rest, '\n', 0) < rest.len() {
                    None
                } else {
                    Some((s.take(p), s.subrange(p + 1, e), rest))
                }
            }
        }
    }
}

/// What `parse_filename` gives for a stem: the id (the number read as a `u32`)
/// and the trimmed title.
pub open spec fn filename_parts(s: Seq<char>) -> Option<(Seq<char>, u32, Seq<char>)> {
    match filename_match(s) {
        Some((prefix, digits, rest)) => match parse_u32_spec(digits) {
            Some(n) => Some((prefix, n, trim(rest))),
            None => None,
        },
        None => None,
    }
}

/// Reads a file stem (the name without `.md`) into a ticket id and a title.
pub fn parse_filename(stem: &str) -> (r: Option<(TicketId, String)>)
    ensures
        r is Some <==> filename_parts(stem@) is Some,
        r matches Some((id, title)) ==> filename_parts(stem@) == Some(
            (id.prefix@, id.number, title@),
        ),
{
    let s = chars_of(stem);
    if s.len() == 0 || !('A' <= s[0] && s[0] <= 'Z') {
        return None;
    }
    let p = skip_updig(&s, 1);
    if p >= s.len() || s[p] != '-' {
        return None;
    }
    let e = skip_nd(&s, p + 1);
    if e <= p + 1 {
        return None;
    }
    let r = if e < s.len() && (is_ws_char(s[e]) || s[e] == '-') {
        e + 1
    } else {
        e
    };
    let rest = slice_chars(&s, r, s.len());
    assert(rest@ =~= s@.skip(r as int));
    let nlpos = find_char_from(&rest, '\n', 0);
    if nlpos < rest.len() {
        return None;
    }
    let digits = slice_chars(&s, p + 1, e);
    let n = match parse_unsigned(&digits, 0xffff_ffff) {
        Some(v) => v as u32,
        None => {
            return None;
        },
    };
    let prefix = slice_chars(&s, 0, p);
    let title = trim_chars(&rest);
    Some((TicketId { prefix: string_from_chars(&prefix), number: n }, string_from_chars(&title)))
}

// ---------------------------------------------------------------------------
// Comment headers
// ---------------------------------------------------------------------------
/// `\d{4}-\d{2}-\d{2}` at `a`.
pub open spec fn date_at(z: Seq<char>, a: int) -> bool {
    &&& 0 <= a && a + 10 <= z.len()
    &&& z[a + 4] == '-' && z[a + 7] == '-'
    &&& forall|k: int|
        0 <= k < 10 && k != 4 && k != 7 ==> #[trigger] is_nd(z[a + k])
}

/// `\d{2}:\d{2}` at `a`.
pub open spec fn time_at(z: Seq<char>, a: int) -> bool {
    &&& 0 <= a && a + 5 <= z.len()
    &&& z[a + 2] == ':'
    &&& is_nd(z[a]) && is_nd(z[a + 1]) && is_nd(z[a + 3]) && is_nd(z[a + 4])
}

/// `z` matches `\s*\((date)(?:\s+(time))?\)\s*` entirely; the date and the time.
pub open spec fn time_group(z: Seq<char>) -> Option<(Seq<char>, Option<Seq<char>>)> {
    let a = ws_end(z, 0);
    if a < z.len() && z[a] == '(' && date_at(z, a + 1) {
        let b = a + 11;
        let date = z.subrange(a + 1, b);
        let t0 = ws_end(z, b);
        if t0 > b && time_at(z, t0) && t0 + 5 < z.len() && z[t0 + 5] == ')' && ws_end(z, t0 + 6)
            == z.len() {
            Some((date, Some(z.subrange(t0, t0 + 5))))
        } else if b < z.len() && z[b] == ')' && ws_end(z, b + 1) == z.len() {
            Some((date, None))
        } else {
            None
        }
    } else {
        None
    }
}

/// What may follow the author in a header: nothing but whitespace, or a time group.
pub open spec fn header_tail(z: Seq<char>) -> bool {
    all_ws(z) || time_group(z) is Some
}

/// The shortest author length (at least `j`) that leaves a valid tail.
pub open spec fn author_end(y: Seq<char>, j: int) -> int
    decreases y.len() - j,
{
    if j >= y.len() {
        y.len() as int
    } else if header_tail(y.skip(j)) {
        j
    } else {
        author_end(y, j + 1)
    }
}

/// A line matched by `^\s*##\s+(.+?)\s*(?:\((\d{4}-\d{2}-\d{2})(?:\s+(\d{2}:\d{2}))?\))?\s*$`:
/// the author, and the date and time when present.
pub open spec fn comment_header(line: Seq<char>) -> Option<
    (Seq<char>, Option<Seq<char>>, Option<Seq<char>>),
> {
    let w = ws_end(line, 0);
    if w + 2 <= line.len() && line[w] == '#' && line[w + 1] == '#' {
        let m = ws_end(line, w + 2);
        if m == w + 2 {
            None
        } else if m < line.len() {
            let y = line.skip(m);
            let j = author_end(y, 1);
            match time_group(y.skip(j)) {
                Some((d, t)) => Some((y.take(j), Some(d), t)),
                None => Some((y.take(j), None, None)),
            }
        } else if m - (w + 2) >= 2 {
            Some((line.subrange(m - 1, m), None, None))
        } else {
            None
        }
    } else {
        None
    }
}

pub open spec fn midnight() -> Seq<char> {
    seq!['0', '0', ':', '0', '0']
}

/// The timestamp of a header: the date with its time, or with `00:00`.
pub open spec fn header_timestamp(date: Option<Seq<char>>, time: Option<Seq<char>>) -> Option<
    Timestamp,
> {
    match date {
        None => None,
        Some(d) => timestamp_from_text(
            d + seq![' '] + match time {
                Some(t) => t,
                None => midnight(),
            },
        ),
    }
}

pub proof fn lemma_time_group_shapes(z: Seq<char>)
    ensures
        time_group(z) matches Some((d, t)) ==> date_at(d, 0) && d.len() == 10 && (t matches Some(
            tt,
        ) ==> time_at(tt, 0) && tt.len() == 5),
{
    if let Some((d, t)) = time_group(z) {
        let a = ws_end(z, 0);
        assert(d =~= z.subrange(a + 1, a + 11));
        assert forall|k: int| 0 <= k < 10 && k != 4 && k != 7 implies #[trigger] is_nd(d[0 + k]) by {
            assert(d[k] == z[a + 1 + k]);
            assert(is_nd(z[(a + 1) + k]));
        }
        if let Some(tt) = t {
            let t0 = ws_end(z, a + 11);
            assert(tt =~= z.subrange(t0, t0 + 5));
        }
    }
}

pub proof fn lemma_comment_header_shapes(line: Seq<char>)
    ensures
        comment_header(line) matches Some((a, d, t)) ==> (d matches Some(dd) ==> date_at(dd, 0)
            && dd.len() == 10) && (t matches Some(tt) ==> time_at(tt, 0) && tt.len() == 5),
{
    let w = ws_end(line, 0);
    if w + 2 <= line.len() && line[w] == '#' && line[w + 1] == '#' {
        let m = ws_end(line, w + 2);
        if m != w + 2 && m < line.len() {
            let y = line.skip(m);
            let j = author_end(y, 1);
            lemma_time_group_shapes(y.skip(j));
        }
    }
}

fn is_date_at(z: &Vec<char>, a: usize) -> (r: bool)
    ensures
        r == date_at(z@, a as int),
{
    if a > z.len() || z.len() - a < 10 {
        return false;
    }
    if z[a + 4] != '-' || z[a + 7] != '-' {
        return false;
    }
    let mut k: usize = 0;
    while k < 10
        invariant
            k <= 10,
            a + 10 <= z.len(),
            forall|j: int| 0 <= j < k && j != 4 && j != 7 ==> #[trigger] is_nd(z@[a + j]),
        decreases 10 - k,
    {
        if k != 4 && k != 7 && !is_nd_char(z[a + k]) {
            return false;
        }
        k = k + 1;
    }
    true
}

fn is_time_at(z: &Vec<char>, a: usize) -> (r: bool)
    ensures
        r == time_at(z@, a as int),
{
    if a > z.len() || z.len() - a < 5 {
        return false;
    }
    z[a + 2] == ':' && is_nd_char(z[a]) && is_nd_char(z[a + 1]) && is_nd_char(z[a + 3])
        && is_nd_char(z[a + 4])
}

fn time_group_exec(z: &Vec<char>) -> (r: Option<(Vec<char>, Option<Vec<char>>)>)
    ensures
        match time_group(z@) {
            Some((d, t)) => r matches Some((d2, t2)) && d2@ == d && match t {
                Some(tt) => t2 matches Some(tt2) && tt2@ == tt,
                None => t2 is None,
            },
            None => r is None,
        },
{
    let a = skip_ws(z, 0);
    if a < z.len() && z[a] == '(' && is_date_at(z, a + 1) {
        let b = a + 11;
        let date = slice_chars(z, a + 1, b);
        let t0 = skip_ws(z, b);
        if t0 > b && is_time_at(z, t0) && t0 + 5 < z.len() && z[t0 + 5] == ')' && skip_ws(
            z,
            t0 + 6,
        ) == z.len() {
            let t = slice_chars(z, t0, t0 + 5);
            return Some((date, Some(t)));
        } else if b < z.len() && z[b] == ')' && skip_ws(z, b + 1) == z.len() {
            return Some((date, None));
        } else {
            return None;
        }
    }
    None
}

fn all_ws_exec(z: &Vec<char>) -> (r: bool)
    ensures
        r == all_ws(z@),
{
    let e = skip_ws(z, 0);
    proof {
        lemma_ws_end(z@, 0);
    }
    e == z.len()
}

fn header_tail_exec(y: &Vec<char>, j: usize) -> (r: bool)
    requires
        j <= y.len(),
    ensures
        r == header_tail(y@.skip(j as int)),
{
    let z = slice_chars(y, j, y.len());
    assert(z@ =~= y@.skip(j as int));
    if all_ws_exec(&z) {
        return true;
    }
    match time_group_exec(&z) {
        Some(_) => true,
        None => false,
    }
}

/// Reads a comment header line: author, date text, time text.
fn comment_header_exec(line: &Vec<char>) -> (r: Option<(Vec<char>, Option<Vec<char>>, Option<Vec<char>>)>)
    ensures
        match comment_header(line@) {
            Some((a, d, t)) => r matches Some((a2, d2, t2)) && a2@ == a && match d {
                Some(dd) => d2 matches Some(dd2) && dd2@ == dd,
                None => d2 is None,
            } && match t {
                Some(tt) => t2 matches Some(tt2) && tt2@ == tt,
                None => t2 is None,
            },
            None => r is None,
        },
{
    let w = skip_ws(line, 0);
    if !(line.len() - w >= 2 && line[w] == '#' && line[w + 1] == '#') {
        return None;
    }
    let m = skip_ws(line, w + 2);
    if m == w + 2 {
        return None;
    }
    if m < line.len() {
        let y = slice_chars(line, m, line.len());
        assert(y@ =~= line@.skip(m as int));
        let mut j: usize = 1;
        while j < y.len() && !header_tail_exec(&y, j)
            invariant
                1 <= j <= y.len(),
                author_end(y@, j as int) == author_end(y@, 1),
            decreases y.len() - j,
        {
            j = j + 1;
        }
        assert(j as int == author_end(y@, 1));
        let author = slice_chars(&y, 0, j);
        let tail = slice_chars(&y, j, y.len());
        assert(tail@ =~= y@.skip(j as int));
        assert(author@ =~= y@.take(j as int));
        match time_group_exec(&tail) {
            Some((d, t)) => Some((author, Some(d), t)),
            None => Some((author, None, None)),
        }
    } else if m - (w + 2) >= 2 {
        let a = slice_chars(line, m - 1, m);
        Some((a, None, None))
    } else {
        None
    }
}

fn header_timestamp_exec(date: &Option<Vec<char>>, time: &Option<Vec<char>>) -> (r: Option<Timestamp>)
    requires
        date matches Some(d) ==> date_at(d@, 0) && d@.len() == 10,
        time matches Some(t) ==> time_at(t@, 0) && t@.len() == 5,
    ensures
        r == header_timestamp(
            match date {
                Some(d) => Some(d@),
                None => None,
            },
            match time {
                Some(t) => Some(t@),
                None => None,
            },
        ),
        r matches Some(ts) ==> ts.wf(),
{
    match date {
        None => None,
        Some(d) => {
            let mut text = d.clone();
            assert(text@ == d@);
            text.push(' ');
            let tpart = match time {
                Some(t) => t.clone(),
                None => vec!['0', '0', ':', '0', '0'],
            };
            let ghost tp = match time {
                Some(t) => t@,
                None => midnight(),
            };
            assert(tpart@ == tp);
            push_all(&mut text, &tpart);
            assert(text@ == d@ + seq![' '] + tp);
            assert(date_time_shape(text@)) by {
                assert forall|i: int| is_digit_slot(i) implies is_nd(#[trigger] text@[i]) by {
                    if i < 10 {
                        assert(is_nd(d@[0 + i]));
                    } else if time is Some {
                        assert(text@[i] == tp[i - 11]);
                    } else {
                        assert(text@[i] == '0');
                    }
                }
            }
            let s = string_from_chars(&text);
            parse_minute_text(s.as_str())
        },
    }
}

// ---------------------------------------------------------------------------
// Header-area lines
// ---------------------------------------------------------------------------
pub open spec fn hash_space() -> Seq<char> {
    seq!['#', ' ']
}

/// A heading line (`# `, but not `## `), after trimming.
pub open spec fn is_heading(t: Seq<char>) -> bool {
    starts_with(t, hash_space()) && !starts_with(t, seq!['#', '#', ' '])
}

/// `str::trim_start_matches("# ")`.
pub open spec fn strip_hash_spaces(s: Seq<char>) -> Seq<char>
    decreases s.len(),
{
    if s.len() >= 2 && starts_with(s, hash_space()) {
        strip_hash_spaces(s.skip(2))
    } else {
        s
    }
}

/// Removes a leading ticket id (`^[A-Z][A-Z0-9]*-\d+\s*`).
pub open spec fn strip_leading_id(h: Seq<char>) -> Seq<char> {
    if h.len() > 0 && is_ascii_upper(h[0]) {
        let p = updig_end(h, 1);
        if p < h.len() && h[p] == '-' {
            let e = nd_end(h, p + 1);
            if e > p + 1 {
                h.skip(ws_end(h, e))
            } else {
                h
            }
        } else {
            h
        }
    } else {
        h
    }
}

/// Removes every `[...]` tag and the whitespace after it (`\[.*?\]\s*`).
pub open spec fn strip_tags(s: Seq<char>) -> Seq<char>
    decreases s.len(),
{
    let p = find_char(s, '[', 0);
    if p >= s.len() || p < 0 {
        s
    } else {
        let q = find_char(s, ']', p + 1);
        if q >= s.len() || q < p + 1 {
            s
        } else {
            let e = ws_end(s, q + 1);
            if e <= 0 || e > s.len() {
                s
            } else {
                s.take(p) + strip_tags(s.skip(e))
            }
        }
    }
}

/// The title of a heading's text: without a leading id and `[Project]` tags, trimmed.
pub open spec fn cleaned_title(h: Seq<char>) -> Seq<char> {
    trim(strip_tags(strip_leading_id(h)))
}

pub open spec fn status_word() -> Seq<char> {
    seq!['t', 'a', 't', 'u', 's', ':']
}

/// A status line matched by `^\*\s*[Ss]tatus:\s*(.+)$`: the trimmed value.
pub open spec fn status_of(t: Seq<char>) -> Option<Seq<char>> {
    if t.len() >= 1 && t[0] == '*' {
        let a = ws_end(t, 1);
        if a + 7 < t.len() && (t[a] == 'S' || t[a] == 's') && t.subrange(a + 1, a + 7)
            == status_word() {
            Some(trim(t.skip(a + 7)))
        } else {
            None
        }
    } else {
        None
    }
}

fn strip_hash_spaces_exec(s: &Vec<char>) -> (r: Vec<char>)
    ensures
        r@ == strip_hash_spaces(s@),
{
    let mut i: usize = 0;
    let hs = vec!['#', ' '];
    assert(hs@ =~= hash_space());
    assert(s@.skip(0) =~= s@);
    while s.len() - i >= 2 && has_at(s, i, &hs)
        invariant
            i <= s.len(),
            strip_hash_spaces(s@.skip(i as int)) == strip_hash_spaces(s@),
            hs@ == hash_space(),
        decreases s.len() - i,
    {
        assert(s@.skip(i as int).skip(2) =~= s@.skip(i + 2));
        assert(strip_hash_spaces(s@.skip(i as int)) == strip_hash_spaces(s@.skip(i as int).skip(2)));
        i = i + 2;
    }
    assert(s@.skip(0) =~= s@);
    let r = slice_chars(s, i, s.len());
    assert(r@ =~= s@.skip(i as int));
    r
}

fn strip_leading_id_exec(h: &Vec<char>) -> (r: Vec<char>)
    ensures
        r@ == strip_leading_id(h@),
{
    if h.len() > 0 && 'A' <= h[0] && h[0] <= 'Z' {
        let p = skip_updig(h, 1);
        if p < h.len() && h[p] == '-' {
            let e = skip_nd(h, p + 1);
            if e > p + 1 {
                let w = skip_ws(h, e);
                return slice_chars(h, w, h.len());
            }
        }
    }
    let r = slice_chars(h, 0, h.len());
    assert(r@ =~= h@);
    r
}

fn strip_tags_exec(s: &Vec<char>) -> (r: Vec<char>)
    ensures
        r@ == strip_tags(s@),
{
    let mut out: Vec<char> = Vec::new();
    let mut i: usize = 0;
    assert(s@.skip(0) =~= s@);
    loop
        invariant
            i <= s.len(),
            strip_tags(s@) == out@ + strip_tags(s@.skip(i as int)),
        decreases s.len() - i,
    {
        let rest = slice_chars(s, i, s.len());
        assert(rest@ =~= s@.skip(i as int));
        let p = find_char_from(&rest, '[', 0);
        proof {
            lemma_find_char(rest@, '[', 0);
        }
        if p >= rest.len() {
            push_all(&mut out, &rest);
            return out;
        }
        let q = find_char_from(&rest, ']', p + 1);
        proof {
            lemma_find_char(rest@, ']', p + 1);
        }
        if q >= rest.len() {
            push_all(&mut out, &rest);
            return out;
        }
        let e = skip_ws(&rest, q + 1);
        let before = slice_chars(&rest, 0, p);
        assert(before@ =~= rest@.take(p as int));
        push_all(&mut out, &before);
        assert(rest@.skip(e as int) =~= s@.skip(i + e));
        i = i + e;
    }
}

fn cleaned_title_chars(h: &Vec<char>) -> (r: Vec<char>)
    ensures
        r@ == cleaned_title(h@),
{
    let a = strip_leading_id_exec(h);
    let b = strip_tags_exec(&a);
    trim_chars(&b)
}

/// Removes a leading ticket id and `[Project]` tags from heading text, and trims it.
pub fn clean_heading_title(heading: &str) -> (r: String)
    ensures
        r@ == cleaned_title(heading@),
{
    let h = chars_of(heading);
    string_from_chars(&cleaned_title_chars(&h))
}

fn status_of_exec(t: &Vec<char>) -> (r: Option<Vec<char>>)
    ensures
        match status_of(t@) {
            Some(v) => r matches Some(v2) && v2@ == v,
            None => r is None,
        },
{
    if t.len() >= 1 && t[0] == '*' {
        let a = skip_ws(t, 1);
        let sw = vec!['t', 'a', 't', 'u', 's', ':'];
        if t.len() - a > 7 && (t[a] == 'S' || t[a] == 's') && has_at(t, a + 1, &sw) {
            assert(t@.skip(a + 1).take(6) =~= t@.subrange(a + 1, a + 7));
            let rest = slice_chars(t, a + 7, t.len());
            assert(rest@ =~= t@.skip(a + 7));
            return Some(trim_chars(&rest));
        } else {
            if t.len() - a > 7 {
                assert(t@.skip(a + 1).take(6) =~= t@.subrange(a + 1, a + 7));
            }
            return None;
        }
    }
    None
}


// ---------------------------------------------------------------------------
// Reading a whole file
// ---------------------------------------------------------------------------
/// The comment being read: author, timestamp, body lines so far.
pub type OpenComment = (Seq<char>, Option<Timestamp>, Seq<Seq<char>>);

/// What the reader knows after some lines.
pub struct ParseState {
    pub status: Option<Seq<char>>,
    pub heading: Option<Seq<char>>,
    pub preamble: Seq<Seq<char>>,
    pub comments: Seq<CommentView>,
    pub current: Option<OpenComment>,
    pub in_header: bool,
}

pub open spec fn initial_state() -> ParseState {
    ParseState {
        status: None,
        heading: None,
        preamble: seq![],
        comments: seq![],
        current: None,
        in_header: true,
    }
}

/// A finished comment: its body is its lines joined and trimmed.
pub open spec fn close_comment(c: OpenComment) -> CommentView {
    CommentView { author: c.0, timestamp: c.1, body: trim(join(c.2, nl())) }
}

/// The comments read so far, with the open one closed.
pub open spec fn closed_comments(st: ParseState) -> Seq<CommentView> {
    match st.current {
        Some(c) => st.comments.push(close_comment(c)),
        None => st.comments,
    }
}

/// One line: a comment header opens a comment; in the header area a heading
/// sets the title, a status line the status, blank lines are skipped and other
/// lines join the preamble; after the first comment header every line joins
/// the open comment's body.
pub open spec fn step(st: ParseState, line: Seq<char>) -> ParseState {
    match comment_header(line) {
        Some((a, d, t)) => ParseState {
            comments: closed_comments(st),
            current: Some((a, header_timestamp(d, t), seq![])),
            in_header: false,
            ..st
        },
        None => if st.in_header {
            let tr = trim(line);
            if is_heading(tr) {
                ParseState { heading: Some(cleaned_title(strip_hash_spaces(tr))), ..st }
            } else if status_of(tr) is Some {
                ParseState { status: status_of(tr), ..st }
            } else if tr.len() == 0 {
                st
            } else {
                ParseState { preamble: st.preamble.push(line), ..st }
            }
        } else {
            match st.current {
                Some(c) => ParseState { current: Some((c.0, c.1, c.2.push(line))), ..st },
                None => st,
            }
        },
    }
}

pub open spec fn run(ls: Seq<Seq<char>>) -> ParseState
    decreases ls.len(),
{
    if ls.len() == 0 {
        initial_state()
    } else {
        step(run(ls.drop_last()), ls.last())
    }
}

/// Index of the first line equal to `target` at or after `i`, or `ls.len()`.
pub open spec fn find_line(ls: Seq<Seq<char>>, target: Seq<char>, i: int) -> int
    decreases ls.len() - i,
{
    if i >= ls.len() {
        ls.len() as int
    } else if i >= 0 && ls[i] == target {
        i
    } else {
        find_line(ls, target, i + 1)
    }
}

pub open spec fn dashes() -> Seq<char> {
    seq!['-', '-', '-']
}

/// A first line `---` and a later line `---` enclose the frontmatter (its lines
/// joined by line breaks); the lines after the closing `---` are the rest.
pub open spec fn split_frontmatter(ls: Seq<Seq<char>>) -> (Option<Seq<char>>, Seq<Seq<char>>) {
    if ls.len() > 0 && ls[0] == dashes() {
        let k = find_line(ls, dashes(), 1);
        if 1 <= k < ls.len() {
            (Some(join(ls.subrange(1, k), nl())), ls.skip(k + 1))
        } else {
            (None, ls)
        }
    } else {
        (None, ls)
    }
}

/// The ticket read from a file: the id given, the heading's title (else the
/// title from the file name), the status, the frontmatter, the preamble lines
/// joined and trimmed, the comments.
pub open spec fn parsed_ticket(
    prefix: Seq<char>,
    number: u32,
    filename_title: Seq<char>,
    content: Seq<char>,
    is_closed: bool,
) -> TicketView {
    let (fm, body) = split_frontmatter(lines(content));
    let st = run(body);
    TicketView {
        prefix,
        number,
        title: match st.heading {
            Some(h) => h,
            None => filename_title,
        },
        status: st.status,
        frontmatter: fm,
        preamble: trim(join(st.preamble, nl())),
        comments: closed_comments(st),
        is_closed,
    }
}

struct Reader {
    status: Option<Vec<char>>,
    heading: Option<Vec<char>>,
    preamble: Vec<Vec<char>>,
    comments: Vec<Comment>,
    current: Option<(Vec<char>, Option<Timestamp>, Vec<Vec<char>>)>,
    in_header: bool,
}

pub open spec fn opt_chars(o: Option<Vec<char>>) -> Option<Seq<char>> {
    match o {
        Some(v) => Some(v@),
        None => None,
    }
}

impl Reader {
    spec fn state(&self) -> ParseState {
        ParseState {
            status: opt_chars(self.status),
            heading: opt_chars(self.heading),
            preamble: views(self.preamble@),
            comments: comment_views(self.comments@),
            current: match self.current {
                Some((a, t, b)) => Some((a@, t, views(b@))),
                None => None,
            },
            in_header: self.in_header,
        }
    }

    spec fn times_wf(&self) -> bool {
        &&& forall|i: int|
            0 <= i < self.comments@.len() ==> ((#[trigger] self.comments@[i]).timestamp matches Some(
                t,
            ) ==> t.wf())
        &&& (self.current matches Some((a, tt, b)) ==> (tt matches Some(t) ==> t.wf()))
    }

    fn close_current(&mut self)
        requires
            old(self).times_wf(),
        ensures
            final(self).state() == (ParseState {
                comments: closed_comments(old(self).state()),
                current: None,
                ..old(self).state()
            }),
            final(self).times_wf(),
    {
        let cur = self.current.take();
        match cur {
            Some((a, t, b)) => {
                let sep = vec!['\n'];
                assert(sep@ =~= nl());
                let joined = join_chars(&b, &sep);
                let body = trim_chars(&joined);
                let c = Comment { author: string_from_chars(&a), timestamp: t, body: string_from_chars(&body) };
                let ghost before = self.comments@;
                self.comments.push(c);
                assert(comment_views(self.comments@) =~= comment_views(before).push(c@));
            },
            None => {},
        }
    }

    fn step(&mut self, line: &Vec<char>)
        requires
            old(self).times_wf(),
        ensures
            final(self).state() == step(old(self).state(), line@),
            final(self).times_wf(),
    {
        let ghost st = self.state();
        match comment_header_exec(line) {
            Some((a, d, t)) => {
                proof {
                    lemma_comment_header_shapes(line@);
                }
                let ts = header_timestamp_exec(&d, &t);
                self.close_current();
                let nb: Vec<Vec<char>> = Vec::new();
                assert(views(nb@) =~= Seq::<Seq<char>>::empty());
                self.current = Some((a, ts, nb));
                self.in_header = false;
            },
            None => {
                if self.in_header {
                    let tr = trim_chars(line);
                    let hh = vec!['#', ' '];
                    let hhh = vec!['#', '#', ' '];
                    assert(hh@ =~= hash_space());
                    assert(hhh@ =~= seq!['#', '#', ' ']);
                    if has_at(&tr, 0, &hh) && !has_at(&tr, 0, &hhh) {
                        assert(tr@.skip(0) =~= tr@);
                        let stripped = strip_hash_spaces_exec(&tr);
                        let h = cleaned_title_chars(&stripped);
                        self.heading = Some(h);
                    } else {
                        assert(tr@.skip(0) =~= tr@);
                        match status_of_exec(&tr) {
                            Some(v) => {
                                self.status = Some(v);
                            },
                            None => {
                                if tr.len() > 0 {
                                    let ghost before = self.preamble@;
                                    self.preamble.push(slice_chars(line, 0, line.len()));
                                    assert(line@.subrange(0, line@.len() as int) =~= line@);
                                    assert(views(self.preamble@) =~= views(before).push(line@));
                                }
                            },
                        }
                    }
                } else {
                    match &mut self.current {
                        Some((a, t, b)) => {
                            let ghost before = b@;
                            b.push(slice_chars(line, 0, line.len()));
                            assert(line@.subrange(0, line@.len() as int) =~= line@);
                            assert(views(b@) =~= views(before).push(line@));
                        },
                        None => {},
                    }
                }
            },
        }
    }
}


fn subrange_lines(ls: &Vec<Vec<char>>, from: usize, to: usize) -> (r: Vec<Vec<char>>)
    requires
        from <= to <= ls.len(),
    ensures
        views(r@) == views(ls@).subrange(from as int, to as int),
{
    let mut r: Vec<Vec<char>> = Vec::new();
    let mut i = from;
    while i < to
        invariant
            from <= i <= to <= ls.len(),
            views(r@) == views(ls@).subrange(from as int, i as int),
        decreases to - i,
    {
        let l = slice_chars(&ls[i], 0, ls[i].len());
        assert(l@ =~= ls@[i as int]@);
        let ghost before = r@;
        r.push(l);
        assert(views(r@) =~= views(before).push(l@));
        assert(views(r@) =~= views(ls@).subrange(from as int, i + 1));
        i = i + 1;
    }
    r
}

/// Reads ticket file content. Never fails: whatever does not fit the format
/// ends up in the preamble or in a comment body.
pub fn parse_ticket(id: TicketId, filename_title: &str, content: &str, is_closed: bool) -> (r: Ticket)
    ensures
        r@ == parsed_ticket(id.prefix@, id.number, filename_title@, content@, is_closed),
        r.times_wf(),
{
    let cs = chars_of(content);
    let ls = split_lines(&cs);
    let ghost vls = views(ls@);
    let dash = vec!['-', '-', '-'];
    assert(dash@ =~= dashes());
    let mut start: usize = 0;
    let mut fm: Option<String> = None;
    if ls.len() > 0 && chars_eq(&ls[0], &dash) {
        let mut k: usize = 1;
        while k < ls.len() && !chars_eq(&ls[k], &dash)
            invariant
                1 <= k <= ls.len(),
                vls == views(ls@),
                dash@ == dashes(),
                find_line(vls, dashes(), k as int) == find_line(vls, dashes(), 1),
            decreases ls.len() - k,
        {
            k = k + 1;
        }
        if k < ls.len() {
            let inner = subrange_lines(&ls, 1, k);
            let sep = vec!['\n'];
            assert(sep@ =~= nl());
            let f = join_chars(&inner, &sep);
            fm = Some(string_from_chars(&f));
            start = k + 1;
        }
    }
    let ghost body = split_frontmatter(vls).1;
    assert(body =~= vls.subrange(start as int, vls.len() as int));
    let mut rd = Reader {
        status: None,
        heading: None,
        preamble: Vec::new(),
        comments: Vec::new(),
        current: None,
        in_header: true,
    };
    assert(views(rd.preamble@) =~= Seq::<Seq<char>>::empty());
    assert(comment_views(rd.comments@) =~= Seq::<CommentView>::empty());
    assert(rd.state() == initial_state());
    let mut i = start;
    assert(vls.subrange(start as int, start as int) =~= Seq::<Seq<char>>::empty());
    while i < ls.len()
        invariant
            start <= i <= ls.len(),
            vls == views(ls@),
            rd.state() == run(vls.subrange(start as int, i as int)),
            rd.times_wf(),
        decreases ls.len() - i,
    {
        let ghost sub = vls.subrange(start as int, i + 1);
        assert(sub.drop_last() =~= vls.subrange(start as int, i as int));
        assert(sub.last() == ls@[i as int]@);
        rd.step(&ls[i]);
        i = i + 1;
    }
    let ghost st = rd.state();
    assert(st == run(body));
    rd.close_current();
    let title = match rd.heading {
        Some(h) => string_from_chars(&h),
        None => filename_title.to_string(),
    };
    let sep = vec!['\n'];
    assert(sep@ =~= nl());
    let pj = join_chars(&rd.preamble, &sep);
    let pre = trim_chars(&pj);
    let r = Ticket {
        id,
        title,
        status: match rd.status {
            Some(v) => Some(string_from_chars(&v)),
            None => None,
        },
        frontmatter: fm,
        preamble: string_from_chars(&pre),
        comments: rd.comments,
        is_closed,
    };
    assert(r@.comments =~= closed_comments(st));
    r
}

} // verus!
