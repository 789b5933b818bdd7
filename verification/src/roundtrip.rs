//! Reading a ticket's canonical text gives the ticket back: the lines of the
//! canonical text, and how the reader's state goes through them.
use vstd::prelude::*;
use crate::text::{
    lines, join, nl, has_no_nl, strip_cr, trim, is_trimmed, rejoinable, lemma_lines_join, lemma_lines_cons,
    lemma_lines_empty, lemma_join_cons,
};
use crate::text::{is_ws, ws_end, ws_begin, lemma_ws_end_unique, lemma_ws_begin_unique, lemma_trim_trimmed, starts_with, trim_start, trim_end, decimal, lemma_decimal_digits, is_ascii_digit, lemma_lines_append};
use crate::ticket::{
    TicketView, CommentView, heading_line, status_prefix, comment_header_line, comment_text, comments_text,
    canonical_body, canonical, frontmatter_block, lit_dashes, valid_prefix, id_text,
};
use crate::timestamp::{minute_text, pad_decimal, year_text, Timestamp};
use crate::parser::{
    ParseState, initial_state, step, run, close_comment, closed_comments, comment_header, is_heading, status_of,
    cleaned_title, strip_hash_spaces, header_timestamp, split_frontmatter, find_line, dashes, parsed_ticket,
};

verus! {

/// Lines, each followed by a line break.
pub open spec fn terminated(ls: Seq<Seq<char>>) -> Seq<char>
    decreases ls.len(),
{
    if ls.len() == 0 {
        seq![]
    } else {
        ls[0] + nl() + terminated(ls.skip(1))
    }
}

/// A line that `str::lines` gives back as it is when a line break follows it.
pub open spec fn plain_text_line(l: Seq<char>) -> bool {
    has_no_nl(l) && strip_cr(l) == l
}

pub proof fn lemma_lines_terminated(ls: Seq<Seq<char>>)
    requires
        forall|i: int| 0 <= i < ls.len() ==> plain_text_line(#[trigger] ls[i]),
    ensures
        lines(terminated(ls)) == ls,
    decreases ls.len(),
{
    if ls.len() == 0 {
        lemma_lines_empty();
    } else {
        let r = ls.skip(1);
        assert forall|i: int| 0 <= i < r.len() implies plain_text_line(#[trigger] r[i]) by {
            assert(r[i] == ls[i + 1]);
        }
        lemma_lines_terminated(r);
        assert(plain_text_line(ls[0]));
        lemma_lines_cons(ls[0], terminated(r));
        assert(lines(terminated(ls)) =~= ls);
    }
}

pub proof fn lemma_terminated_append(a: Seq<Seq<char>>, b: Seq<Seq<char>>)
    ensures
        terminated(a + b) == terminated(a) + terminated(b),
    decreases a.len(),
{
    if a.len() == 0 {
        assert(a + b =~= b);
        assert(terminated(a) + terminated(b) =~= terminated(b));
    } else {
        lemma_terminated_append(a.skip(1), b);
        assert((a + b).skip(1) =~= a.skip(1) + b);
        assert((a + b)[0] == a[0]);
        assert(terminated(a + b) =~= terminated(a) + terminated(b));
    }
}

/// Lines joined with line breaks, and a last line break, are the lines terminated.
pub proof fn lemma_join_terminated(m: Seq<Seq<char>>)
    requires
        m.len() > 0,
    ensures
        join(m, nl()) + nl() == terminated(m),
    decreases m.len(),
{
    if m.len() == 1 {
        assert(m.skip(1) =~= Seq::<Seq<char>>::empty());
        assert(join(m, nl()) == m[0]);
        assert(terminated(m.skip(1)) == Seq::<char>::empty());
        assert(terminated(m) =~= m[0] + nl());
    } else {
        let r = m.skip(1);
        assert(m =~= seq![m[0]] + r);
        lemma_join_cons(m[0], r, nl());
        lemma_join_terminated(r);
        assert(join(m, nl()) + nl() =~= terminated(m));
    }
}

/// Text that is its lines joined with line breaks: its lines are rejoinable,
/// the text followed by a line break is them terminated, and the last line
/// ends as the text does.
pub proof fn lemma_text_lines(x: Seq<char>)
    requires
        x.len() > 0,
        join(lines(x), nl()) == x,
    ensures
        rejoinable(lines(x)),
        lines(x).len() > 0,
        x + nl() == terminated(lines(x)),
        lines(x).last().last() == x.last(),
{
    let m = lines(x);
    lemma_lines_join(m);
    if m.len() == 0 {
        assert(join(m, nl()) =~= Seq::<char>::empty());
    }
    lemma_join_terminated(m);
    if m.len() == 1 {
        assert(join(m, nl()) == m[0]);
    } else {
        assert(join(m, nl()) == join(m.drop_last(), nl()) + nl() + m.last());
    }
}


pub proof fn lemma_terminated_one(a: Seq<char>)
    ensures
        terminated(seq![a]) == a + nl(),
{
    let m = seq![a];
    assert(m.skip(1) =~= Seq::<Seq<char>>::empty());
    assert(terminated(m.skip(1)) == Seq::<char>::empty());
    assert(m[0] == a);
    assert(terminated(m) =~= a + nl());
}

pub proof fn lemma_terminated_two(a: Seq<char>, b: Seq<char>)
    ensures
        terminated(seq![a, b]) == a + nl() + b + nl(),
{
    let m = seq![a, b];
    assert(m.skip(1) =~= seq![b]);
    lemma_terminated_one(b);
    assert(m[0] == a);
    assert(terminated(m) =~= a + nl() + b + nl());
}

/// A text block (preamble or comment body) as its lines: none when it is empty.
pub open spec fn block_lines(x: Seq<char>) -> Seq<Seq<char>> {
    if x.len() == 0 {
        seq![]
    } else {
        lines(x)
    }
}

/// A text block that reads back as itself: empty, or its lines joined with
/// line breaks, `trim` leaving it unchanged.
pub open spec fn clean_block(x: Seq<char>) -> bool {
    x.len() == 0 || (join(lines(x), nl()) == x && is_trimmed(x))
}

/// The lines of a comment in canonical text: a blank line, the header, the body.
pub open spec fn comment_lines(c: CommentView) -> Seq<Seq<char>> {
    seq![seq![], comment_header_line(c.author, c.timestamp)] + block_lines(c.body)
}

pub open spec fn comments_lines(cs: Seq<CommentView>) -> Seq<Seq<char>>
    decreases cs.len(),
{
    if cs.len() == 0 {
        seq![]
    } else {
        comments_lines(cs.drop_last()) + comment_lines(cs.last())
    }
}

/// The status written for a ticket.
pub open spec fn written_status(t: TicketView, default_status: Seq<char>) -> Seq<char> {
    match t.status {
        Some(s) => s,
        None => default_status,
    }
}

/// The lines of the canonical text without frontmatter: heading, status,
/// a blank line and the preamble when there is one, then the comments.
pub open spec fn body_lines(t: TicketView, default_status: Seq<char>) -> Seq<Seq<char>> {
    seq![heading_line(t.prefix, t.number, t.title), status_prefix() + written_status(t, default_status)] + (
    if t.preamble.len() == 0 {
        seq![]
    } else {
        seq![seq![]] + lines(t.preamble)
    }) + comments_lines(t.comments)
}

/// A clean block followed by a line break is its lines terminated.
proof fn lemma_block_terminated(x: Seq<char>)
    requires
        x.len() == 0 || join(lines(x), nl()) == x,
    ensures
        terminated(block_lines(x)) == (if x.len() == 0 {
            seq![]
        } else {
            x + nl()
        }),
{
    if x.len() > 0 {
        lemma_text_lines(x);
    }
}

proof fn lemma_comments_terminated(cs: Seq<CommentView>)
    requires
        forall|i: int| 0 <= i < cs.len() ==> clean_block(#[trigger] cs[i].body),
    ensures
        terminated(comments_lines(cs)) == comments_text(cs),
    decreases cs.len(),
{
    if cs.len() > 0 {
        let d = cs.drop_last();
        assert forall|i: int| 0 <= i < d.len() implies clean_block(#[trigger] d[i].body) by {
            assert(d[i] == cs[i]);
        }
        lemma_comments_terminated(d);
        let c = cs.last();
        assert(clean_block(cs[cs.len() - 1].body));
        lemma_terminated_append(comments_lines(d), comment_lines(c));
        lemma_block_terminated(c.body);
        let two = seq![seq![], comment_header_line(c.author, c.timestamp)];
        lemma_terminated_append(two, block_lines(c.body));
        lemma_terminated_two(seq![], comment_header_line(c.author, c.timestamp));
        assert(terminated(comment_lines(c)) =~= comment_text(c));
    }
}

/// The canonical text without frontmatter is its lines terminated.
pub proof fn lemma_body_terminated(t: TicketView, default_status: Seq<char>)
    requires
        clean_block(t.preamble),
        forall|i: int| 0 <= i < t.comments.len() ==> clean_block(#[trigger] t.comments[i].body),
    ensures
        terminated(body_lines(t, default_status)) == canonical_body(t, default_status),
{
    let head = seq![heading_line(t.prefix, t.number, t.title), status_prefix() + written_status(t, default_status)];
    let pre = if t.preamble.len() == 0 {
        seq![]
    } else {
        seq![seq![]] + lines(t.preamble)
    };
    lemma_terminated_append(head + pre, comments_lines(t.comments));
    lemma_terminated_append(head, pre);
    lemma_comments_terminated(t.comments);
    lemma_terminated_two(heading_line(t.prefix, t.number, t.title), status_prefix() + written_status(t, default_status));
    if t.preamble.len() > 0 {
        lemma_text_lines(t.preamble);
        lemma_terminated_append(seq![seq![]], lines(t.preamble));
        lemma_terminated_one(Seq::<char>::empty());
        assert(terminated(pre) =~= nl() + t.preamble + nl());
    } else {
        assert(terminated(pre) == Seq::<char>::empty());
    }
    assert(terminated(body_lines(t, default_status)) =~= canonical_body(t, default_status));
}


// ---------------------------------------------------------------------------
// What has to hold of a ticket for its canonical text to read back
// ---------------------------------------------------------------------------
/// The heading line reads back as the title (one line, trimmed).
pub open spec fn title_reads_back(t: TicketView) -> bool {
    &&& has_no_nl(t.title)
    &&& is_trimmed(t.title)
    &&& cleaned_title(strip_hash_spaces(trim(heading_line(t.prefix, t.number, t.title)))) == t.title
}

/// The status line reads back as the status (one line, trimmed, not empty).
pub open spec fn status_reads_back(s: Seq<char>) -> bool {
    &&& has_no_nl(s)
    &&& is_trimmed(s)
    &&& s.len() > 0
    &&& status_of(trim(status_prefix() + s)) == Some(s)
}

/// The comment's header line reads back as its author and time.
pub open spec fn header_reads_back(c: CommentView) -> bool {
    &&& has_no_nl(c.author)
    &&& is_trimmed(c.author)
    &&& c.author.len() > 0
    &&& comment_header(comment_header_line(c.author, c.timestamp)) matches Some((a, d, tm)) && a == c.author
        && header_timestamp(d, tm) == c.timestamp
}

/// A preamble line: not blank, and neither a heading, a status line nor a comment header.
pub open spec fn preamble_line(l: Seq<char>) -> bool {
    &&& comment_header(l) is None
    &&& trim(l).len() > 0
    &&& !is_heading(trim(l))
    &&& status_of(trim(l)) is None
}

/// Frontmatter that reads back: its lines joined with line breaks (not ending
/// in `\r`), none of them `---`.
pub open spec fn clean_frontmatter(fm: Option<Seq<char>>) -> bool {
    match fm {
        None => true,
        Some(f) => {
            &&& f.len() == 0 || (join(lines(f), nl()) == f && f.last() != '\r')
            &&& forall|i: int| 0 <= i < lines(f).len() ==> #[trigger] lines(f)[i] != dashes()
        },
    }
}

/// Everything that the canonical text of a ticket writes reads back as itself.
#[verifier::opaque]
pub open spec fn canonical_readable(t: TicketView, default_status: Seq<char>) -> bool {
    &&& valid_prefix(t.prefix)
    &&& title_reads_back(t)
    &&& status_reads_back(written_status(t, default_status))
    &&& clean_block(t.preamble)
    &&& forall|i: int| 0 <= i < block_lines(t.preamble).len() ==> preamble_line(#[trigger] block_lines(t.preamble)[i])
    &&& forall|i: int|
        0 <= i < t.comments.len() ==> {
            &&& header_reads_back(#[trigger] t.comments[i])
            &&& clean_block(t.comments[i].body)
            &&& forall|k: int|
                0 <= k < block_lines(t.comments[i].body).len() ==> comment_header(
                    #[trigger] block_lines(t.comments[i].body)[k],
                ) is None
        }
    &&& clean_frontmatter(t.frontmatter)
}

// ---------------------------------------------------------------------------
// The reader's state over a sequence of lines
// ---------------------------------------------------------------------------
/// The reader's state after the lines, starting from `st`.
pub open spec fn run_on(st: ParseState, ls: Seq<Seq<char>>) -> ParseState
    decreases ls.len(),
{
    if ls.len() == 0 {
        st
    } else {
        step(run_on(st, ls.drop_last()), ls.last())
    }
}

pub proof fn lemma_run_on_initial(ls: Seq<Seq<char>>)
    ensures
        run(ls) == run_on(initial_state(), ls),
    decreases ls.len(),
{
    if ls.len() > 0 {
        lemma_run_on_initial(ls.drop_last());
    }
}

pub proof fn lemma_run_on_append(st: ParseState, a: Seq<Seq<char>>, b: Seq<Seq<char>>)
    ensures
        run_on(st, a + b) == run_on(run_on(st, a), b),
    decreases b.len(),
{
    if b.len() == 0 {
        assert(a + b =~= a);
    } else {
        assert((a + b).drop_last() =~= a + b.drop_last());
        assert((a + b).last() == b.last());
        lemma_run_on_append(st, a, b.drop_last());
    }
}

pub proof fn lemma_run_on_one(st: ParseState, x: Seq<char>)
    ensures
        run_on(st, seq![x]) == step(st, x),
{
    let one = seq![x];
    assert(one.drop_last() =~= Seq::<Seq<char>>::empty());
    assert(one.last() == x);
    assert(run_on(st, one.drop_last()) == st);
}

pub proof fn lemma_run_on_two(st: ParseState, x: Seq<char>, y: Seq<char>)
    ensures
        run_on(st, seq![x, y]) == step(step(st, x), y),
{
    let m = seq![x, y];
    let one = seq![x];
    assert(m.drop_last() =~= one);
    assert(m.last() == y);
    assert(one.drop_last() =~= Seq::<Seq<char>>::empty());
    assert(one.last() == x);
    assert(run_on(st, one.drop_last()) == st);
    assert(run_on(st, one) == step(st, x));
    assert(run_on(st, m) == step(run_on(st, one), y));
}

/// Preamble lines in the header area join the preamble.
proof fn lemma_run_preamble(st: ParseState, ls: Seq<Seq<char>>)
    requires
        st.in_header,
        forall|i: int| 0 <= i < ls.len() ==> preamble_line(#[trigger] ls[i]),
    ensures
        run_on(st, ls) == (ParseState { preamble: st.preamble + ls, ..st }),
    decreases ls.len(),
{
    if ls.len() == 0 {
        assert(st.preamble + ls =~= st.preamble);
    } else {
        let d = ls.drop_last();
        assert forall|i: int| 0 <= i < d.len() implies preamble_line(#[trigger] d[i]) by {
            assert(d[i] == ls[i]);
        }
        lemma_run_preamble(st, d);
        assert(preamble_line(ls[ls.len() - 1]));
        assert(st.preamble + d.push(ls.last()) =~= st.preamble + ls);
        assert(d.push(ls.last()) =~= ls);
    }
}

/// Lines that are no comment headers, after a comment header, join the open comment's body.
proof fn lemma_run_body(st: ParseState, ls: Seq<Seq<char>>)
    requires
        !st.in_header,
        st.current is Some,
        forall|i: int| 0 <= i < ls.len() ==> comment_header(#[trigger] ls[i]) is None,
    ensures
        run_on(st, ls) == (ParseState {
            current: Some((st.current.unwrap().0, st.current.unwrap().1, st.current.unwrap().2 + ls)),
            ..st
        }),
    decreases ls.len(),
{
    let c = st.current.unwrap();
    if ls.len() == 0 {
        assert(c.2 + ls =~= c.2);
    } else {
        let d = ls.drop_last();
        assert forall|i: int| 0 <= i < d.len() implies comment_header(#[trigger] d[i]) is None by {
            assert(d[i] == ls[i]);
        }
        lemma_run_body(st, d);
        assert(comment_header(ls[ls.len() - 1]) is None);
        assert((c.2 + d).push(ls.last()) =~= c.2 + ls);
    }
}


// ---------------------------------------------------------------------------
// Each kind of canonical line
// ---------------------------------------------------------------------------
proof fn lemma_trimmed_first_last(s: Seq<char>)
    requires
        s.len() > 0,
        !is_ws(s[0]),
        !is_ws(s.last()),
    ensures
        trim(s) == s,
{
    lemma_trim_trimmed(s);
}

proof fn lemma_decimal_last(n: nat)
    ensures
        decimal(n).len() > 0,
        is_ascii_digit(decimal(n).last()),
        forall|k: int| 0 <= k < decimal(n).len() ==> is_ascii_digit(#[trigger] decimal(n)[k]),
{
    lemma_decimal_digits(n);
    assert(is_ascii_digit(decimal(n)[decimal(n).len() - 1]));
}

/// The heading line of a ticket whose prefix is valid and title one trimmed line.
proof fn lemma_heading_line(t: TicketView)
    requires
        valid_prefix(t.prefix),
        has_no_nl(t.title),
        is_trimmed(t.title),
    ensures
        ({
            let h = heading_line(t.prefix, t.number, t.title);
            &&& trim(h) == h
            &&& plain_text_line(h)
            &&& comment_header(h) is None
            &&& is_heading(h)
            &&& h != dashes()
        }),
{
    let h = heading_line(t.prefix, t.number, t.title);
    let id = id_text(t.prefix, t.number);
    lemma_decimal_last(t.number as nat);
    let d = decimal(t.number as nat);
    assert(id.last() == d.last());
    if t.title.len() == 0 {
        assert(h.last() == id.last());
    } else {
        assert(h.last() == t.title.last());
    }
    assert(h[0] == '#');
    lemma_trimmed_first_last(h);
    assert forall|k: int| 0 <= k < h.len() implies #[trigger] h[k] != '\n' by {
        if k >= 2 && k < 2 + t.prefix.len() {
            assert(h[k] == t.prefix[k - 2]);
        } else if k >= 3 + t.prefix.len() && k < 3 + t.prefix.len() + d.len() {
            assert(h[k] == d[k - 3 - t.prefix.len()]);
        } else if t.title.len() > 0 && k >= 4 + t.prefix.len() + d.len() {
            assert(h[k] == t.title[k - 4 - t.prefix.len() - d.len()]);
        }
    }
    lemma_ws_end_unique(h, 0, 0);
    assert(h.take(2) =~= seq!['#', ' ']);
    assert(h[1] == ' ');
    if h == dashes() {
        assert(h[0] == '-');
    }
}

/// The status line of a status that reads back.
proof fn lemma_status_line(s: Seq<char>)
    requires
        status_reads_back(s),
    ensures
        ({
            let l = status_prefix() + s;
            &&& trim(l) == l
            &&& plain_text_line(l)
            &&& comment_header(l) is None
            &&& !is_heading(l)
        }),
{
    let l = status_prefix() + s;
    assert(l[0] == '*');
    assert(l.last() == s.last());
    assert(!is_ws(s[s.len() - 1]));
    lemma_trimmed_first_last(l);
    assert forall|k: int| 0 <= k < l.len() implies #[trigger] l[k] != '\n' by {
        if k >= 10 {
            assert(l[k] == s[k - 10]);
        }
    }
    lemma_ws_end_unique(l, 0, 0);
}

proof fn lemma_blank_line()
    ensures
        comment_header(Seq::<char>::empty()) is None,
        trim(Seq::<char>::empty()).len() == 0,
        plain_text_line(Seq::<char>::empty()),
{
    lemma_trim_trimmed(Seq::<char>::empty());
}

proof fn lemma_minute_text_line(ts: Timestamp)
    ensures
        has_no_nl(minute_text(ts)),
{
    let y = year_text(ts.year as int);
    let parts = seq![pad_decimal(ts.month as nat, 2), pad_decimal(ts.day as nat, 2), pad_decimal(ts.hour as nat, 2), pad_decimal(ts.minute as nat, 2)];
    assert forall|n: nat, w: nat, k: int| 0 <= k < pad_decimal(n, w).len() implies #[trigger] pad_decimal(n, w)[k] != '\n' by {
        lemma_decimal_last(n);
        let d = decimal(n);
        if d.len() < w {
            let z = Seq::new((w - d.len()) as nat, |i: int| '0');
            assert(pad_decimal(n, w) == z + d);
            if k >= z.len() {
                assert(pad_decimal(n, w)[k] == d[k - z.len()]);
            }
        }
    }
    assert forall|k: int| 0 <= k < y.len() implies #[trigger] y[k] != '\n' by {
        let yy = ts.year as int;
        if 0 <= yy <= 9999 {
        } else if yy < 0 {
            if k > 0 {
                assert(y[k] == pad_decimal((-yy) as nat, 4)[k - 1]);
            }
        } else {
            if k > 0 {
                assert(y[k] == pad_decimal(yy as nat, 4)[k - 1]);
            }
        }
    }
    let m = minute_text(ts);
    assert forall|k: int| 0 <= k < m.len() implies #[trigger] m[k] != '\n' by {
        let a = y.len();
        let mo = pad_decimal(ts.month as nat, 2);
        let d = pad_decimal(ts.day as nat, 2);
        let h = pad_decimal(ts.hour as nat, 2);
        let mi = pad_decimal(ts.minute as nat, 2);
        if k < a {
            assert(m[k] == y[k]);
        } else if k == a {
        } else if k < a + 1 + mo.len() {
            assert(m[k] == mo[k - a - 1]);
        } else if k == a + 1 + mo.len() {
        } else if k < a + 2 + mo.len() + d.len() {
            assert(m[k] == d[k - a - 2 - mo.len()]);
        } else if k == a + 2 + mo.len() + d.len() {
        } else if k < a + 3 + mo.len() + d.len() + h.len() {
            assert(m[k] == h[k - a - 3 - mo.len() - d.len()]);
        } else if k == a + 3 + mo.len() + d.len() + h.len() {
        } else {
            assert(m[k] == mi[k - a - 4 - mo.len() - d.len() - h.len()]);
        }
    }
}

/// The header line of a comment whose header reads back.
proof fn lemma_header_line(c: CommentView)
    requires
        header_reads_back(c),
    ensures
        plain_text_line(comment_header_line(c.author, c.timestamp)),
        comment_header_line(c.author, c.timestamp) != dashes(),
{
    let l = comment_header_line(c.author, c.timestamp);
    let a = c.author;
    match c.timestamp {
        Some(ts) => {
            lemma_minute_text_line(ts);
            let m = minute_text(ts);
            assert forall|k: int| 0 <= k < l.len() implies #[trigger] l[k] != '\n' by {
                if k >= 3 && k < 3 + a.len() {
                    assert(l[k] == a[k - 3]);
                } else if k >= 5 + a.len() && k < 5 + a.len() + m.len() {
                    assert(l[k] == m[k - 5 - a.len()]);
                }
            }
            assert(l.last() == ')');
        },
        None => {
            assert forall|k: int| 0 <= k < l.len() implies #[trigger] l[k] != '\n' by {
                if k >= 3 {
                    assert(l[k] == a[k - 3]);
                }
            }
            assert(l.last() == a.last());
            assert(!is_ws(a[a.len() - 1]));
        },
    }
    assert(l[0] == '#' && l[1] == '#');
    if l == dashes() {
        assert(l[0] == '-');
    }
}

/// A trimmed non-empty text followed by a line break trims back to itself.
proof fn lemma_trim_newline(b: Seq<char>)
    requires
        b.len() > 0,
        is_trimmed(b),
    ensures
        trim(b + nl()) == b,
{
    let x = b + nl();
    assert(x[0] == b[0]);
    lemma_ws_end_unique(x, 0, 0);
    assert(trim_start(x) =~= x);
    assert(x[x.len() - 1] == '\n');
    assert(x[b.len() - 1] == b.last());
    lemma_ws_begin_unique(x, x.len() as int, b.len() as int);
    assert(trim_end(x) =~= b);
}


// ---------------------------------------------------------------------------
// The reader over the canonical lines
// ---------------------------------------------------------------------------
/// The lines of the header area: heading, status, and a blank line and the
/// preamble when there is one.
pub open spec fn head_lines(t: TicketView, default_status: Seq<char>) -> Seq<Seq<char>> {
    seq![heading_line(t.prefix, t.number, t.title), status_prefix() + written_status(t, default_status)] + (
    if t.preamble.len() == 0 {
        seq![]
    } else {
        seq![seq![]] + lines(t.preamble)
    })
}

/// The reader's state after the header area.
pub open spec fn header_state(t: TicketView, default_status: Seq<char>) -> ParseState {
    ParseState {
        status: Some(written_status(t, default_status)),
        heading: Some(t.title),
        preamble: block_lines(t.preamble),
        comments: seq![],
        current: None,
        in_header: true,
    }
}

proof fn lemma_run_head(t: TicketView, default_status: Seq<char>)
    requires
        canonical_readable(t, default_status),
    ensures
        run_on(initial_state(), head_lines(t, default_status)) == header_state(t, default_status),
{
    lemma_readable_parts(t, default_status);
    let h = heading_line(t.prefix, t.number, t.title);
    let sl = status_prefix() + written_status(t, default_status);
    lemma_heading_line(t);
    lemma_status_line(written_status(t, default_status));
    let st0 = initial_state();
    let st1 = step(st0, h);
    assert(st1 == ParseState { heading: Some(t.title), ..st0 });
    let st2 = step(st1, sl);
    assert(st2 == ParseState { status: Some(written_status(t, default_status)), ..st1 });
    lemma_run_on_two(st0, h, sl);
    let two = seq![h, sl];
    if t.preamble.len() == 0 {
        assert(head_lines(t, default_status) =~= two);
        assert(st2 == header_state(t, default_status));
    } else {
        let pl = lines(t.preamble);
        assert(head_lines(t, default_status) =~= two + (seq![seq![]] + pl));
        lemma_run_on_append(st0, two, seq![seq![]] + pl);
        lemma_run_on_append(st2, seq![seq![]], pl);
        lemma_blank_line();
        lemma_run_on_one(st2, Seq::<char>::empty());
        assert(step(st2, Seq::<char>::empty()) == st2);
        assert forall|i: int| 0 <= i < pl.len() implies preamble_line(#[trigger] pl[i]) by {
            assert(block_lines(t.preamble)[i] == pl[i]);
        }
        lemma_run_preamble(st2, pl);
        assert(st2.preamble + pl =~= pl);
    }
}

/// The reader's state after the comments: the earlier ones read, the last one open.
pub open spec fn after_comments(h: ParseState, cs: Seq<CommentView>) -> ParseState {
    if cs.len() == 0 {
        h
    } else {
        ParseState {
            comments: cs.drop_last(),
            current: Some((cs.last().author, cs.last().timestamp, block_lines(cs.last().body))),
            in_header: false,
            ..h
        }
    }
}

/// A comment whose body lines got a blank line after them closes as the comment.
proof fn lemma_close_blank(c: CommentView)
    requires
        clean_block(c.body),
    ensures
        close_comment((c.author, c.timestamp, block_lines(c.body).push(seq![]))) == c,
{
    let b = c.body;
    let m = block_lines(b).push(seq![]);
    if b.len() == 0 {
        assert(m =~= seq![Seq::<char>::empty()]);
        assert(join(m, nl()) == m[0]);
        lemma_trim_trimmed(Seq::<char>::empty());
        assert(trim(join(m, nl())) =~= b);
    } else {
        lemma_text_lines(b);
        assert(m.drop_last() =~= lines(b));
        assert(join(m, nl()) =~= b + nl());
        lemma_trim_newline(b);
        assert(trim(join(m, nl())) == b);
    }
    assert(close_comment((c.author, c.timestamp, m)) == CommentView {
        author: c.author,
        timestamp: c.timestamp,
        body: b,
    });
}

/// The last comment, its body lines read, closes as the comment.
proof fn lemma_close_plain(c: CommentView)
    requires
        clean_block(c.body),
    ensures
        close_comment((c.author, c.timestamp, block_lines(c.body))) == c,
{
    let b = c.body;
    if b.len() == 0 {
        assert(join(block_lines(b), nl()) =~= Seq::<char>::empty());
        lemma_trim_trimmed(Seq::<char>::empty());
        assert(trim(join(block_lines(b), nl())) =~= b);
    } else {
        lemma_trim_trimmed(b);
        assert(trim(join(block_lines(b), nl())) == b);
    }
    assert(close_comment((c.author, c.timestamp, block_lines(c.body))) == CommentView {
        author: c.author,
        timestamp: c.timestamp,
        body: b,
    });
}

/// A header line that reads back opens its comment, closing the one before.
proof fn lemma_step_header(st: ParseState, c: CommentView)
    requires
        header_reads_back(c),
    ensures
        step(st, comment_header_line(c.author, c.timestamp)) == (ParseState {
            comments: closed_comments(st),
            current: Some((c.author, c.timestamp, Seq::<Seq<char>>::empty())),
            in_header: false,
            ..st
        }),
{
}

/// A comment fit to read back.
pub open spec fn readable_comment(c: CommentView) -> bool {
    &&& header_reads_back(c)
    &&& clean_block(c.body)
    &&& forall|k: int| 0 <= k < block_lines(c.body).len() ==> comment_header(#[trigger] block_lines(c.body)[k]) is None
}

/// The blank line and the header of the next comment, after the comments `d`.
proof fn lemma_next_comment(h: ParseState, d: Seq<CommentView>, c: CommentView)
    requires
        h.in_header,
        h.current is None,
        h.comments == Seq::<CommentView>::empty(),
        forall|i: int| 0 <= i < d.len() ==> readable_comment(#[trigger] d[i]),
        readable_comment(c),
    ensures
        run_on(after_comments(h, d), seq![seq![], comment_header_line(c.author, c.timestamp)]) == (ParseState {
            comments: d,
            current: Some((c.author, c.timestamp, Seq::<Seq<char>>::empty())),
            in_header: false,
            ..h
        }),
{
    let p = after_comments(h, d);
    let hdr = comment_header_line(c.author, c.timestamp);
    lemma_run_on_two(p, seq![], hdr);
    lemma_blank_line();
    let q = step(p, seq![]);
    lemma_step_header(q, c);
    if d.len() == 0 {
        assert(q == h);
        assert(closed_comments(h) == Seq::<CommentView>::empty());
        assert(d =~= Seq::<CommentView>::empty());
    } else {
        let pc = d.last();
        assert(q == ParseState { current: Some((pc.author, pc.timestamp, block_lines(pc.body).push(seq![]))), ..p });
        assert(readable_comment(d[d.len() - 1]));
        lemma_close_blank(pc);
        assert(closed_comments(q) == d.drop_last().push(pc));
        assert(d.drop_last().push(pc) =~= d);
    }
}

proof fn lemma_run_comments(h: ParseState, cs: Seq<CommentView>)
    requires
        h.in_header,
        h.current is None,
        h.comments == Seq::<CommentView>::empty(),
        forall|i: int| 0 <= i < cs.len() ==> readable_comment(#[trigger] cs[i]),
    ensures
        run_on(h, comments_lines(cs)) == after_comments(h, cs),
    decreases cs.len(),
{
    if cs.len() > 0 {
        let d = cs.drop_last();
        let c = cs.last();
        assert forall|i: int| 0 <= i < d.len() implies readable_comment(#[trigger] d[i]) by {
            assert(d[i] == cs[i]);
        }
        assert(readable_comment(cs[cs.len() - 1]));
        lemma_run_comments(h, d);
        lemma_run_on_append(h, comments_lines(d), comment_lines(c));
        let p = after_comments(h, d);
        let hdr = comment_header_line(c.author, c.timestamp);
        lemma_run_on_append(p, seq![seq![], hdr], block_lines(c.body));
        lemma_next_comment(h, d, c);
        let r = ParseState {
            comments: d,
            current: Some((c.author, c.timestamp, Seq::<Seq<char>>::empty())),
            in_header: false,
            ..h
        };
        lemma_run_body(r, block_lines(c.body));
        assert(Seq::<Seq<char>>::empty() + block_lines(c.body) =~= block_lines(c.body));
        assert(comment_lines(c) =~= seq![seq![], hdr] + block_lines(c.body));
    }
}


/// The parts of a ticket whose canonical text reads back.
proof fn lemma_readable_parts(t: TicketView, default_status: Seq<char>)
    requires
        canonical_readable(t, default_status),
    ensures
        valid_prefix(t.prefix),
        title_reads_back(t),
        status_reads_back(written_status(t, default_status)),
        clean_block(t.preamble),
        t.preamble.len() == 0 || (join(lines(t.preamble), nl()) == t.preamble && t.preamble.last() != '\r'),
        forall|i: int| 0 <= i < block_lines(t.preamble).len() ==> preamble_line(#[trigger] block_lines(t.preamble)[i]),
        forall|i: int| 0 <= i < t.comments.len() ==> readable_comment(#[trigger] t.comments[i]),
        forall|i: int| 0 <= i < t.comments.len() ==> clean_block(#[trigger] t.comments[i].body),
        clean_frontmatter(t.frontmatter),
{
    reveal(canonical_readable);
    if t.preamble.len() > 0 {
        assert(t.preamble.last() == t.preamble[t.preamble.len() - 1]);
    }
    assert forall|i: int| 0 <= i < t.comments.len() implies readable_comment(#[trigger] t.comments[i]) by {
    }
}

// ---------------------------------------------------------------------------
// The whole text
// ---------------------------------------------------------------------------
/// The lines of the frontmatter block.
pub open spec fn fm_lines(fm: Option<Seq<char>>) -> Seq<Seq<char>> {
    match fm {
        None => seq![],
        Some(f) => seq![dashes()] + block_lines(f) + seq![dashes()],
    }
}

/// The lines of a clean block are plain lines, its last one ending as the block does.
proof fn lemma_block_plain(x: Seq<char>)
    requires
        x.len() == 0 || (join(lines(x), nl()) == x && x.last() != '\r'),
    ensures
        forall|i: int| 0 <= i < block_lines(x).len() ==> plain_text_line(#[trigger] block_lines(x)[i]),
        terminated(block_lines(x)) == (if x.len() == 0 {
            seq![]
        } else {
            x + nl()
        }),
        join(block_lines(x), nl()) == x,
{
    lemma_block_terminated(x);
    if x.len() > 0 {
        lemma_text_lines(x);
        let m = lines(x);
        assert forall|i: int| 0 <= i < m.len() implies plain_text_line(#[trigger] m[i]) by {
            if i == m.len() - 1 {
                assert(m[i].last() == x.last());
            }
        }
    } else {
        assert(join(block_lines(x), nl()) =~= x);
    }
}

proof fn lemma_fm_lines(fm: Option<Seq<char>>)
    requires
        clean_frontmatter(fm),
    ensures
        terminated(fm_lines(fm)) == frontmatter_block(fm),
        forall|i: int| 0 <= i < fm_lines(fm).len() ==> plain_text_line(#[trigger] fm_lines(fm)[i]),
{
    match fm {
        None => {
            assert(frontmatter_block(fm) =~= Seq::<char>::empty());
        },
        Some(f) => {
            lemma_block_plain(f);
            let bl = block_lines(f);
            let d1 = seq![dashes()];
            lemma_terminated_append(d1 + bl, d1);
            lemma_terminated_append(d1, bl);
            lemma_terminated_one(dashes());
            if f.len() > 0 {
                lemma_text_lines(f);
                let m = lines(f);
                assert(has_no_nl(m[m.len() - 1]));
                assert(m.last().last() == m.last()[m.last().len() - 1]);
                assert(f.last() != '\n');
            }
            assert(dashes() =~= lit_dashes());
            assert(terminated(fm_lines(fm)) =~= frontmatter_block(fm));
            assert forall|i: int| 0 <= i < fm_lines(fm).len() implies plain_text_line(#[trigger] fm_lines(fm)[i]) by {
                if i == 0 || i == fm_lines(fm).len() - 1 {
                    assert(fm_lines(fm)[i] == dashes());
                    assert(has_no_nl(dashes()));
                } else {
                    assert(fm_lines(fm)[i] == bl[i - 1]);
                }
            }
        },
    }
}

proof fn lemma_comments_plain(cs: Seq<CommentView>)
    requires
        forall|i: int| 0 <= i < cs.len() ==> readable_comment(#[trigger] cs[i]),
    ensures
        forall|i: int| 0 <= i < comments_lines(cs).len() ==> plain_text_line(#[trigger] comments_lines(cs)[i]),
    decreases cs.len(),
{
    if cs.len() > 0 {
        let d = cs.drop_last();
        let c = cs.last();
        assert forall|i: int| 0 <= i < d.len() implies readable_comment(#[trigger] d[i]) by {
            assert(d[i] == cs[i]);
        }
        assert(readable_comment(cs[cs.len() - 1]));
        lemma_comments_plain(d);
        lemma_header_line(c);
        lemma_blank_line();
        if c.body.len() > 0 {
            assert(c.body.last() == c.body[c.body.len() - 1]);
            assert(!is_ws(c.body.last()));
        }
        lemma_block_plain(c.body);
        let a = comments_lines(d);
        let b = comment_lines(c);
        assert forall|i: int| 0 <= i < (a + b).len() implies plain_text_line(#[trigger] (a + b)[i]) by {
            if i < a.len() {
                assert((a + b)[i] == a[i]);
            } else if i == a.len() {
                assert((a + b)[i] == Seq::<char>::empty());
            } else if i == a.len() + 1 {
                assert((a + b)[i] == comment_header_line(c.author, c.timestamp));
            } else {
                assert((a + b)[i] == block_lines(c.body)[i - a.len() - 2]);
            }
        }
    }
}

proof fn lemma_find_line_at(ls: Seq<Seq<char>>, target: Seq<char>, i: int, k: int)
    requires
        0 <= i <= k < ls.len(),
        ls[k] == target,
        forall|j: int| i <= j < k ==> #[trigger] ls[j] != target,
    ensures
        find_line(ls, target, i) == k,
    decreases k - i,
{
    if i < k {
        lemma_find_line_at(ls, target, i + 1, k);
    }
}

/// The lines of the canonical text: the frontmatter block's, then the body's.
proof fn lemma_canonical_lines(t: TicketView, default_status: Seq<char>)
    requires
        canonical_readable(t, default_status),
    ensures
        lines(canonical(t, default_status)) == fm_lines(t.frontmatter) + body_lines(t, default_status),
        body_lines(t, default_status) == head_lines(t, default_status) + comments_lines(t.comments),
{
    let bl = body_lines(t, default_status);
    lemma_readable_parts(t, default_status);
    lemma_body_terminated(t, default_status);
    lemma_fm_lines(t.frontmatter);
    lemma_terminated_append(fm_lines(t.frontmatter), bl);
    lemma_heading_line(t);
    lemma_status_line(written_status(t, default_status));
    lemma_blank_line();
    lemma_block_plain(t.preamble);
    lemma_comments_plain(t.comments);
    let hl = head_lines(t, default_status);
    let cl = comments_lines(t.comments);
    assert(bl =~= hl + cl);
    assert forall|i: int| 0 <= i < hl.len() implies plain_text_line(#[trigger] hl[i]) by {
        if i >= 3 {
            assert(hl[i] == block_lines(t.preamble)[i - 3]);
        }
    }
    let all = fm_lines(t.frontmatter) + bl;
    assert forall|i: int| 0 <= i < all.len() implies plain_text_line(#[trigger] all[i]) by {
        let f = fm_lines(t.frontmatter);
        if i < f.len() {
            assert(all[i] == f[i]);
        } else if i < f.len() + hl.len() {
            assert(all[i] == hl[i - f.len()]);
        } else {
            assert(all[i] == cl[i - f.len() - hl.len()]);
        }
    }
    lemma_lines_terminated(all);
}

/// The canonical text splits into the ticket's frontmatter and the body's lines.
proof fn lemma_split_canonical(t: TicketView, default_status: Seq<char>)
    requires
        canonical_readable(t, default_status),
    ensures
        split_frontmatter(lines(canonical(t, default_status))) == (t.frontmatter, body_lines(t, default_status)),
{
    lemma_canonical_lines(t, default_status);
    lemma_readable_parts(t, default_status);
    let fl = fm_lines(t.frontmatter);
    let bl = body_lines(t, default_status);
    let all = fl + bl;
    lemma_heading_line(t);
    match t.frontmatter {
        None => {
            assert(all =~= bl);
            assert(all[0] == heading_line(t.prefix, t.number, t.title));
            assert(split_frontmatter(all) == (Option::<Seq<char>>::None, all));
        },
        Some(f) => {
            let k: int = 1 + block_lines(f).len() as int;
            assert(all[0] == dashes());
            assert(all[k] == dashes());
            assert forall|j: int| 1 <= j < k implies #[trigger] all[j] != dashes() by {
                assert(all[j] == block_lines(f)[j - 1]);
                if f.len() > 0 {
                    assert(block_lines(f)[j - 1] == lines(f)[j - 1]);
                }
            }
            lemma_find_line_at(all, dashes(), 1, k);
            assert(all.subrange(1, k) =~= block_lines(f));
            lemma_block_plain(f);
            assert(all.skip(k + 1) =~= bl);
            assert(split_frontmatter(all) == (Some(f), bl));
        },
    }
}

/// The reader over the body's lines ends with the ticket's title, status,
/// preamble lines and comments.
proof fn lemma_read_body(t: TicketView, default_status: Seq<char>)
    requires
        canonical_readable(t, default_status),
    ensures
        run(body_lines(t, default_status)).heading == Some(t.title),
        run(body_lines(t, default_status)).status == Some(written_status(t, default_status)),
        run(body_lines(t, default_status)).preamble == block_lines(t.preamble),
        closed_comments(run(body_lines(t, default_status))) == t.comments,
{
    lemma_canonical_lines(t, default_status);
    lemma_readable_parts(t, default_status);
    let bl = body_lines(t, default_status);
    lemma_run_on_initial(bl);
    lemma_run_on_append(initial_state(), head_lines(t, default_status), comments_lines(t.comments));
    lemma_run_head(t, default_status);
    let h = header_state(t, default_status);
    lemma_run_comments(h, t.comments);
    let st = run(bl);
    assert(st == after_comments(h, t.comments));
    if t.comments.len() > 0 {
        let c = t.comments.last();
        assert(readable_comment(t.comments[t.comments.len() - 1]));
        lemma_close_plain(c);
        assert(closed_comments(st) =~= t.comments);
    } else {
        assert(closed_comments(st) =~= t.comments);
    }
}

/// Reading the canonical text of a ticket gives the ticket back, its status
/// made explicit (the default status where it had none), whatever title the
/// file name carries: for a ticket each part of whose canonical text reads
/// back as itself (`canonical_readable`). So writing a read ticket again
/// changes nothing: normalizing is stable.
pub proof fn law_parse_canonical(t: TicketView, filename_title: Seq<char>, default_status: Seq<char>)
    requires
        canonical_readable(t, default_status),
    ensures
        parsed_ticket(t.prefix, t.number, filename_title, canonical(t, default_status), t.is_closed) == (TicketView {
            status: Some(written_status(t, default_status)),
            ..t
        }),
        canonical(
            parsed_ticket(t.prefix, t.number, filename_title, canonical(t, default_status), t.is_closed),
            default_status,
        ) == canonical(t, default_status),
{
    lemma_split_canonical(t, default_status);
    lemma_read_body(t, default_status);
    lemma_readable_parts(t, default_status);
    lemma_block_plain(t.preamble);
    if t.preamble.len() == 0 {
        lemma_trim_trimmed(Seq::<char>::empty());
        assert(trim(join(block_lines(t.preamble), nl())) =~= t.preamble);
    } else {
        lemma_trim_trimmed(t.preamble);
    }
    let r = parsed_ticket(t.prefix, t.number, filename_title, canonical(t, default_status), t.is_closed);
    assert(r == (TicketView { status: Some(written_status(t, default_status)), ..t }));
}

} // verus!
