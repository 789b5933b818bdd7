//! Syncing a project with a remote tracker: escaping comment bodies, the text
//! of pushed comments, which sync step each ticket and remote issue needs, the
//! tickets written after a pull or a push, and the sync summary.
use vstd::prelude::*;
use crate::text::{
    chars_of, string_from_chars, slice_chars, push_all, has_at, starts_with, trim_start, ws_end,
    lemma_ws_end, lemma_ws_end_unique, skip_ws, lines, split_lines, join, join_chars, nl, views,
    is_ws, has_no_nl, strip_cr, rejoinable, lemma_lines_join,
};
use crate::text::{str_eq, lemma_lines_no_nl, lemma_lines_empty, lemma_lines_last, lemma_lines_cons, lemma_join_cons};
use crate::parser::comment_header;
use crate::ticket::{Comment, CommentView, Ticket, TicketView, canonical_body};
use crate::timestamp::{minute_text, format_minute_text};
use crate::metadata::{
    SyncMetadata, MetadataFields, metadata_fields, text_hash, compute_content_hash, sync_block, merge_text,
    clean_value, lemma_merge_block, lemma_instant_text_clean, lemma_lower_hex_clean,
};
use crate::remote::{RemoteIssue, RemoteComment, RemoteState};
use crate::ticket::{TicketId, comment_views, opt_view, duplicate_text};
use crate::timestamp::UtcInstant;
use crate::text::{decimal, decimal_chars};

verus! {

// ---------------------------------------------------------------------------
// Escaping `## ` in bodies that come from a remote tracker
// ---------------------------------------------------------------------------
pub open spec fn heading_mark() -> Seq<char> {
    seq!['#', '#', ' ']
}

pub open spec fn escaped_mark() -> Seq<char> {
    seq!['\\', '#', '#', ' ']
}

/// The leading whitespace of a line.
pub open spec fn indent_of(l: Seq<char>) -> Seq<char> {
    l.take(ws_end(l, 0))
}

/// A line whose text starts with `## ` gets `\## ` instead, its indentation kept.
pub open spec fn escape_line(l: Seq<char>) -> Seq<char> {
    let t = trim_start(l);
    if starts_with(t, heading_mark()) {
        indent_of(l) + escaped_mark() + t.skip(3)
    } else {
        l
    }
}

/// A line whose text starts with `\## ` gets `## ` instead, its indentation kept.
pub open spec fn unescape_line(l: Seq<char>) -> Seq<char> {
    let t = trim_start(l);
    if starts_with(t, escaped_mark()) {
        indent_of(l) + heading_mark() + t.skip(4)
    } else {
        l
    }
}

pub open spec fn escaped_body(b: Seq<char>) -> Seq<char> {
    join(lines(b).map_values(|l: Seq<char>| escape_line(l)), nl())
}

pub open spec fn unescaped_body(b: Seq<char>) -> Seq<char> {
    join(lines(b).map_values(|l: Seq<char>| unescape_line(l)), nl())
}

/// The line with its leading `from` mark (after indentation) replaced by `to`.
pub open spec fn swap_line(l: Seq<char>, from: Seq<char>, to: Seq<char>) -> Seq<char> {
    let t = trim_start(l);
    if starts_with(t, from) {
        indent_of(l) + to + t.skip(from.len() as int)
    } else {
        l
    }
}

fn swap_mark(l: &Vec<char>, from: &Vec<char>, to: &Vec<char>) -> (r: Vec<char>)
    ensures
        r@ == swap_line(l@, from@, to@),
{
    let a = skip_ws(l, 0);
    proof {
        lemma_ws_end(l@, 0);
    }
    assert(trim_start(l@) =~= l@.skip(a as int));
    if has_at(l, a, from) {
        let mut out = slice_chars(l, 0, a);
        push_all(&mut out, to);
        let rest = slice_chars(l, a + from.len(), l.len());
        push_all(&mut out, &rest);
        assert(rest@ =~= trim_start(l@).skip(from@.len() as int));
        out
    } else {
        slice_chars(l, 0, l.len())
    }
}

fn map_lines(body: &str, from: &Vec<char>, to: &Vec<char>) -> (r: String)
    ensures
        r@ == join(lines(body@).map_values(|l: Seq<char>| swap_line(l, from@, to@)), nl()),
{
    let cs = chars_of(body);
    let ls = split_lines(&cs);
    let mut out: Vec<Vec<char>> = Vec::new();
    let mut i: usize = 0;
    while i < ls.len()
        invariant
            i <= ls.len(),
            views(ls@) == lines(body@),
            views(out@) == views(ls@).take(i as int).map_values(|l: Seq<char>| swap_line(l, from@, to@)),
        decreases ls.len() - i,
    {
        let m = swap_mark(&ls[i], from, to);
        let ghost before = views(out@);
        out.push(m);
        assert(views(out@) =~= views(ls@).take(i + 1).map_values(
            |l: Seq<char>| swap_line(l, from@, to@),
        )) by {
            assert(views(out@) =~= before.push(m@));
            assert(views(ls@)[i as int] == ls@[i as int]@);
        }
        i = i + 1;
    }
    assert(views(ls@).take(ls.len() as int) =~= views(ls@));
    let sep = vec!['\n'];
    assert(sep@ =~= nl());
    let j = join_chars(&out, &sep);
    string_from_chars(&j)
}

/// Escapes Markdown headings (`## ` at a line's start, after indentation) so
/// that remote text in a comment body is not read as a comment header.
pub fn escape_body(body: String) -> (r: String)
    ensures
        r@ == escaped_body(body@),
{
    let from = vec!['#', '#', ' '];
    let to = vec!['\\', '#', '#', ' '];
    assert(from@ =~= heading_mark());
    assert(to@ =~= escaped_mark());
    let r = map_lines(body.as_str(), &from, &to);
    assert(lines(body@).map_values(|l: Seq<char>| swap_line(l, from@, to@)) =~= lines(
        body@,
    ).map_values(|l: Seq<char>| escape_line(l)));
    r
}

/// Undoes `escape_body`: `\## ` at a line's start becomes `## ` again.
pub fn unescape_body(body: String) -> (r: String)
    ensures
        r@ == unescaped_body(body@),
{
    let from = vec!['\\', '#', '#', ' '];
    let to = vec!['#', '#', ' '];
    assert(from@ =~= escaped_mark());
    assert(to@ =~= heading_mark());
    let r = map_lines(body.as_str(), &from, &to);
    assert(lines(body@).map_values(|l: Seq<char>| swap_line(l, from@, to@)) =~= lines(
        body@,
    ).map_values(|l: Seq<char>| unescape_line(l)));
    r
}

/// Unescaping an escaped line gives it back, unless its text already started with `\## `.
pub proof fn lemma_unescape_escape_line(l: Seq<char>)
    requires
        !starts_with(trim_start(l), escaped_mark()),
    ensures
        unescape_line(escape_line(l)) == l,
{
    let t = trim_start(l);
    if starts_with(t, heading_mark()) {
        lemma_ws_end(l, 0);
        let w = ws_end(l, 0);
        let e = escape_line(l);
        assert(e == l.take(w) + escaped_mark() + t.skip(3));
        assert forall|k: int| 0 <= k < w implies is_ws(#[trigger] e[k]) by {
            assert(e[k] == l[k]);
        }
        assert(e[w] == '\\');
        lemma_ws_end_unique(e, 0, w);
        assert(trim_start(e) =~= escaped_mark() + t.skip(3));
        assert(indent_of(e) =~= l.take(w));
        assert(trim_start(e).skip(4) =~= t.skip(3));
        assert(trim_start(e).take(4) =~= escaped_mark());
        assert(starts_with(trim_start(e), escaped_mark()));
        assert(t =~= heading_mark() + t.skip(3));
        assert(l =~= l.take(w) + t);
        assert(unescape_line(e) =~= l);
    } else {
        assert(escape_line(l) == l);
    }
}

/// Escaping keeps a line free of line breaks, its last character, and non-empty.
proof fn lemma_escape_line_shape(l: Seq<char>)
    requires
        has_no_nl(l),
    ensures
        has_no_nl(escape_line(l)),
        strip_cr(l) == l ==> strip_cr(escape_line(l)) == escape_line(l),
        l.len() > 0 ==> escape_line(l).len() > 0,
{
    let t = trim_start(l);
    if starts_with(t, heading_mark()) {
        lemma_ws_end(l, 0);
        let w = ws_end(l, 0);
        let e = escape_line(l);
        assert(e == l.take(w) + escaped_mark() + t.skip(3));
        assert forall|k: int| 0 <= k < e.len() implies #[trigger] e[k] != '\n' by {
            if k < w {
                assert(e[k] == l[k]);
            } else if k >= w + 4 {
                assert(e[k] == l[k - 1]);
            }
        }
        if t.len() > 3 {
            assert(e.last() == l.last());
        } else {
            assert(e.last() == ' ');
        }
    }
}

/// Escaping a body and then unescaping it gives the body back, for a body that
/// is its lines joined by `\n` (no `\r\n`, no line break at the end) and none
/// of whose lines already starts, after indentation, with `\## `.
pub proof fn law_unescape_escape(b: Seq<char>)
    requires
        join(lines(b), nl()) == b,
        forall|i: int|
            0 <= i < lines(b).len() ==> !starts_with(trim_start(#[trigger] lines(b)[i]), escaped_mark()),
    ensures
        unescaped_body(escaped_body(b)) == b,
{
    let ls = lines(b);
    let es = ls.map_values(|l: Seq<char>| escape_line(l));
    lemma_lines_join(ls);
    assert(rejoinable(ls));
    assert forall|i: int| 0 <= i < es.len() implies has_no_nl(#[trigger] es[i]) by {
        lemma_escape_line_shape(ls[i]);
    }
    assert forall|i: int| 0 <= i < es.len() - 1 implies strip_cr(#[trigger] es[i]) == es[i] by {
        lemma_escape_line_shape(ls[i]);
    }
    if es.len() > 0 {
        lemma_escape_line_shape(ls.last());
        assert(es.last() == escape_line(ls.last()));
    }
    assert(rejoinable(es));
    lemma_lines_join(es);
    assert(lines(escaped_body(b)) == es);
    assert(es.map_values(|l: Seq<char>| unescape_line(l)) =~= ls) by {
        assert forall|i: int| 0 <= i < ls.len() implies unescape_line(escape_line(ls[i])) == ls[i] by {
            lemma_unescape_escape_line(ls[i]);
        }
    }
}

/// The text of the line starts with `##` and then whitespace other than a
/// space: a comment header that escaping leaves as it is.
pub open spec fn odd_heading(l: Seq<char>) -> bool {
    let t = trim_start(l);
    t.len() >= 3 && t[0] == '#' && t[1] == '#' && is_ws(t[2]) && t[2] != ' '
}

/// A line whose text starts neither with `## ` nor as `odd_heading` is no comment header.
proof fn lemma_plain_line_no_header(l: Seq<char>)
    requires
        !starts_with(trim_start(l), heading_mark()),
        !odd_heading(l),
    ensures
        comment_header(l) is None,
{
    lemma_ws_end(l, 0);
    let w = ws_end(l, 0);
    let t = trim_start(l);
    if w + 2 <= l.len() && l[w] == '#' && l[w + 1] == '#' {
        lemma_ws_end(l, w + 2);
        let m = ws_end(l, w + 2);
        if m != w + 2 {
            assert(is_ws(l[w + 2]));
            assert(t[0] == l[w] && t[1] == l[w + 1] && t[2] == l[w + 2]);
            if l[w + 2] == ' ' {
                assert(t.take(3) =~= heading_mark());
            }
        }
    }
}

/// An escaped line is no comment header, nor is it once a final `\r` is dropped.
proof fn lemma_escaped_line_no_header(l: Seq<char>)
    requires
        !odd_heading(l),
    ensures
        comment_header(escape_line(l)) is None,
        comment_header(strip_cr(escape_line(l))) is None,
{
    lemma_ws_end(l, 0);
    let w = ws_end(l, 0);
    let t = trim_start(l);
    let e = escape_line(l);
    if starts_with(t, heading_mark()) {
        assert(e == l.take(w) + escaped_mark() + t.skip(3));
        assert(e[w] == '\\');
        assert forall|k: int| 0 <= k < w implies is_ws(#[trigger] e[k]) by {
            assert(e[k] == l[k]);
        }
        lemma_ws_end_unique(e, 0, w);
        let s = strip_cr(e);
        assert(s.len() > w);
        assert(s[w] == '\\');
        assert forall|k: int| 0 <= k < w implies is_ws(#[trigger] s[k]) by {
            assert(s[k] == e[k]);
        }
        lemma_ws_end_unique(s, 0, w);
    } else {
        assert(e == l);
        lemma_plain_line_no_header(l);
        let s = strip_cr(l);
        if s != l {
            if w == l.len() {
                assert forall|k: int| 0 <= k < s.len() implies is_ws(#[trigger] s[k]) by {
                    assert(s[k] == l[k]);
                }
                lemma_ws_end_unique(s, 0, s.len() as int);
            } else {
                assert(w < s.len());
                assert forall|k: int| 0 <= k < w implies is_ws(#[trigger] s[k]) by {
                    assert(s[k] == l[k]);
                }
                assert(s[w] == l[w]);
                lemma_ws_end_unique(s, 0, w);
                let ts = trim_start(s);
                assert(ts =~= t.drop_last());
                if ts.len() >= 3 {
                    assert(ts[0] == t[0] && ts[1] == t[1] && ts[2] == t[2]);
                    assert(ts.take(3) =~= t.take(3));
                }
            }
            lemma_plain_line_no_header(s);
        }
    }
}

/// Lines that are no comment headers, with or without a final `\r`, joined
/// with `\n`: no line of the text reads as a comment header.
proof fn lemma_joined_lines_no_header(m: Seq<Seq<char>>)
    requires
        forall|i: int| 0 <= i < m.len() ==> has_no_nl(#[trigger] m[i]),
        forall|i: int|
            0 <= i < m.len() ==> comment_header(#[trigger] m[i]) is None && comment_header(strip_cr(m[i])) is None,
    ensures
        forall|k: int|
            0 <= k < lines(join(m, nl())).len() ==> comment_header(#[trigger] lines(join(m, nl()))[k]) is None,
    decreases m.len(),
{
    if m.len() == 0 {
        lemma_lines_empty();
        assert(join(m, nl()) =~= Seq::<char>::empty());
    } else if m.len() == 1 {
        let a = m[0];
        assert(join(m, nl()) == a);
        if a.len() > 0 {
            lemma_lines_last(a);
        } else {
            lemma_lines_empty();
            assert(a =~= Seq::<char>::empty());
        }
    } else {
        let a = m[0];
        let r = m.skip(1);
        assert(m =~= seq![a] + r);
        lemma_join_cons(a, r, nl());
        assert(has_no_nl(a));
        lemma_lines_cons(a, join(r, nl()));
        assert forall|i: int| 0 <= i < r.len() implies has_no_nl(#[trigger] r[i]) by {
            assert(r[i] == m[i + 1]);
        }
        assert forall|i: int| 0 <= i < r.len() implies comment_header(#[trigger] r[i]) is None && comment_header(
            strip_cr(r[i]),
        ) is None by {
            assert(r[i] == m[i + 1]);
        }
        lemma_joined_lines_no_header(r);
        let ls = lines(join(m, nl()));
        assert forall|k: int| 0 <= k < ls.len() implies comment_header(#[trigger] ls[k]) is None by {
            if k > 0 {
                assert(ls[k] == lines(join(r, nl()))[k - 1]);
            }
        }
    }
}

/// No line of an escaped body reads as a comment header: escaping turns every
/// line whose text starts with `## ` into `\## `. This holds for a body none of
/// whose lines starts, after indentation, with `##` and a whitespace other than
/// a space (such a line is left as it is).
pub proof fn law_escaped_body_has_no_header(b: Seq<char>)
    requires
        forall|i: int| 0 <= i < lines(b).len() ==> !odd_heading(#[trigger] lines(b)[i]),
    ensures
        forall|k: int|
            0 <= k < lines(escaped_body(b)).len() ==> comment_header(#[trigger] lines(escaped_body(b))[k]) is None,
{
    let ls = lines(b);
    let es = ls.map_values(|l: Seq<char>| escape_line(l));
    lemma_lines_no_nl(b);
    assert forall|i: int| 0 <= i < es.len() implies has_no_nl(#[trigger] es[i]) by {
        lemma_escape_line_shape(ls[i]);
    }
    assert forall|i: int| 0 <= i < es.len() implies comment_header(#[trigger] es[i]) is None && comment_header(
        strip_cr(es[i]),
    ) is None by {
        lemma_escaped_line_no_header(ls[i]);
    }
    lemma_joined_lines_no_header(es);
}

// ---------------------------------------------------------------------------
// Comments as they are pushed
// ---------------------------------------------------------------------------
/// `*Author (YYYY-MM-DD HH:MM)*` (or `*Author*`), then a blank line and the
/// unescaped body when the body is not empty.
pub open spec fn pushed_comment_text(c: CommentView) -> Seq<char> {
    let head = match c.timestamp {
        Some(t) => seq!['*'] + c.author + seq![' ', '('] + minute_text(t) + seq![')', '*'],
        None => seq!['*'] + c.author + seq!['*'],
    };
    if c.body.len() == 0 {
        head
    } else {
        head + nl() + nl() + unescaped_body(c.body)
    }
}

/// The text a local comment is pushed with.
pub fn format_comment_for_push(comment: &Comment) -> (r: String)
    requires
        comment.timestamp matches Some(t) ==> t.wf(),
    ensures
        r@ == pushed_comment_text(comment@),
{
    let mut out = vec!['*'];
    let a = chars_of(comment.author.as_str());
    push_all(&mut out, &a);
    match &comment.timestamp {
        Some(t) => {
            out.push(' ');
            out.push('(');
            let ts = format_minute_text(t);
            let tc = chars_of(ts.as_str());
            push_all(&mut out, &tc);
            out.push(')');
        },
        None => {},
    }
    out.push('*');
    let bc = chars_of(comment.body.as_str());
    if bc.len() > 0 {
        out.push('\n');
        out.push('\n');
        let u = unescape_body(comment.body.clone());
        let uc = chars_of(u.as_str());
        push_all(&mut out, &uc);
    }
    assert(out@ =~= pushed_comment_text(comment@));
    string_from_chars(&out)
}


// ---------------------------------------------------------------------------
// Which tickets are synced
// ---------------------------------------------------------------------------
/// The sync metadata a ticket's frontmatter records for this provider and repository.
pub open spec fn synced_fields(t: TicketView, provider: Seq<char>, repo: Seq<char>) -> Option<
    MetadataFields,
> {
    match t.frontmatter {
        Some(fm) => match metadata_fields(fm) {
            Some(m) => if m.provider == provider && m.repo == repo {
                Some(m)
            } else {
                None
            },
            None => None,
        },
        None => None,
    }
}

/// The ticket's sync metadata when it is synced with this provider and repository.
pub fn sync_metadata_for(ticket: &Ticket, provider: &str, repo: &str) -> (r: Option<SyncMetadata>)
    ensures
        r is Some <==> synced_fields(ticket@, provider@, repo@) is Some,
        r matches Some(m) ==> synced_fields(ticket@, provider@, repo@) == Some(m.fields())
            && m.remote_updated.wf(),
{
    match &ticket.frontmatter {
        Some(fm) => match SyncMetadata::from_frontmatter(fm.as_str()) {
            Some(m) => {
                if str_eq(m.provider.as_str(), provider) && str_eq(m.repo.as_str(), repo) {
                    Some(m)
                } else {
                    None
                }
            },
            None => None,
        },
        None => None,
    }
}

// ---------------------------------------------------------------------------
// The sync plan
// ---------------------------------------------------------------------------
/// One step of a sync run; tickets and remote issues are named by their index
/// in the lists the plan was made from.
#[derive(Debug, Clone, Copy, PartialEq, Eq, Structural)]
pub enum SyncStep {
    /// Both the ticket and its remote issue changed since the last sync: skipped.
    Conflict { ticket: usize, remote: usize },
    /// The ticket changed and its comment count differs from the synced one:
    /// its new comments are pushed.
    PushComments { ticket: usize, remote: usize },
    /// The ticket changed without new comments: only its hash is renewed.
    RefreshHash { ticket: usize },
    /// The remote issue is read into the ticket (a new one when there is none).
    Pull { ticket: Option<usize>, remote: usize },
    /// Nothing changed.
    Unchanged { ticket: usize },
    /// The remote issue the ticket is synced with no longer exists.
    RemoteMissing { ticket: usize },
    /// The ticket is not synced yet: it becomes a new remote issue.
    PushNew { ticket: usize },
}

/// The remote id of a synced ticket.
pub open spec fn synced_id(ts: Seq<Ticket>, i: int, provider: Seq<char>, repo: Seq<char>) -> Seq<char> {
    synced_fields(ts[i]@, provider, repo).unwrap().remote_id
}

pub open spec fn is_synced(ts: Seq<Ticket>, i: int, prefix: Seq<char>, provider: Seq<char>, repo: Seq<char>) -> bool {
    ts[i]@.prefix == prefix && synced_fields(ts[i]@, provider, repo) is Some
}

/// Indices below `n` of the project's tickets synced with the remote, one per
/// remote id: of several tickets naming one remote issue the last counts.
pub open spec fn synced_upto(ts: Seq<Ticket>, prefix: Seq<char>, provider: Seq<char>, repo: Seq<char>, n: int) -> Seq<int>
    decreases n,
{
    if n <= 0 {
        seq![]
    } else {
        let r = synced_upto(ts, prefix, provider, repo, n - 1);
        if is_synced(ts, n - 1, prefix, provider, repo) {
            r.filter(|i: int| synced_id(ts, i, provider, repo) != synced_id(ts, n - 1, provider, repo)).push(n - 1)
        } else {
            r
        }
    }
}

/// Indices below `n` of the project's tickets that are not synced with the remote.
pub open spec fn unsynced_upto(ts: Seq<Ticket>, prefix: Seq<char>, provider: Seq<char>, repo: Seq<char>, n: int) -> Seq<int>
    decreases n,
{
    if n <= 0 {
        seq![]
    } else {
        let r = unsynced_upto(ts, prefix, provider, repo, n - 1);
        if ts[n - 1]@.prefix == prefix && synced_fields(ts[n - 1]@, provider, repo) is None {
            r.push(n - 1)
        } else {
            r
        }
    }
}

/// Indices below `n` of remote issues, one per id: the last issue with that id.
pub open spec fn remotes_upto(rs: Seq<RemoteIssue>, n: int) -> Seq<int>
    decreases n,
{
    if n <= 0 {
        seq![]
    } else {
        let r = remotes_upto(rs, n - 1);
        r.filter(|j: int| rs[j].remote_id@ != rs[n - 1].remote_id@).push(n - 1)
    }
}

/// The last remote issue below `n` with this id.
pub open spec fn remote_with_id(rs: Seq<RemoteIssue>, id: Seq<char>, n: int) -> Option<int>
    decreases n,
{
    if n <= 0 {
        None
    } else if rs[n - 1].remote_id@ == id {
        Some(n - 1)
    } else {
        remote_with_id(rs, id, n - 1)
    }
}

/// Some synced ticket of the project names this remote id.
pub open spec fn id_is_synced(ts: Seq<Ticket>, prefix: Seq<char>, provider: Seq<char>, repo: Seq<char>, id: Seq<char>) -> bool {
    exists|i: int| 0 <= i < ts.len() && is_synced(ts, i, prefix, provider, repo) && synced_id(ts, i, provider, repo) == id
}

/// The step of a synced ticket: compare its content hash and the remote
/// issue's update time with those recorded at the last sync.
pub open spec fn synced_step(
    ts: Seq<Ticket>,
    rs: Seq<RemoteIssue>,
    i: int,
    provider: Seq<char>,
    repo: Seq<char>,
    default_status: Seq<char>,
) -> SyncStep {
    let t = ts[i]@;
    let m = synced_fields(t, provider, repo).unwrap();
    match remote_with_id(rs, m.remote_id, rs.len() as int) {
        None => SyncStep::RemoteMissing { ticket: i as usize },
        Some(j) => {
            let local_dirty = text_hash(canonical_body(t, default_status)) != m.content_hash;
            let remote_dirty = (rs[j].updated_at.secs as int, rs[j].updated_at.nanos as int) != m.remote_updated;
            if local_dirty && remote_dirty {
                SyncStep::Conflict { ticket: i as usize, remote: j as usize }
            } else if local_dirty {
                if t.comments.len() != m.comment_count {
                    SyncStep::PushComments { ticket: i as usize, remote: j as usize }
                } else {
                    SyncStep::RefreshHash { ticket: i as usize }
                }
            } else if remote_dirty {
                SyncStep::Pull { ticket: Some(i as usize), remote: j as usize }
            } else {
                SyncStep::Unchanged { ticket: i as usize }
            }
        },
    }
}

/// The steps of a sync run: first the synced tickets, then the remote issues no
/// ticket is synced with (pulled as new tickets), then the project's tickets
/// that are not synced yet (pushed as new issues).
pub open spec fn sync_plan(
    ts: Seq<Ticket>,
    rs: Seq<RemoteIssue>,
    prefix: Seq<char>,
    provider: Seq<char>,
    repo: Seq<char>,
    default_status: Seq<char>,
) -> Seq<SyncStep> {
    synced_upto(ts, prefix, provider, repo, ts.len() as int).map_values(
        |i: int| synced_step(ts, rs, i, provider, repo, default_status),
    ) + remotes_upto(rs, rs.len() as int).filter(
        |j: int| !id_is_synced(ts, prefix, provider, repo, rs[j].remote_id@),
    ).map_values(|j: int| SyncStep::Pull { ticket: None, remote: j as usize }) + unsynced_upto(
        ts,
        prefix,
        provider,
        repo,
        ts.len() as int,
    ).map_values(|i: int| SyncStep::PushNew { ticket: i as usize })
}

pub open spec fn as_ints(v: Seq<usize>) -> Seq<int> {
    v.map_values(|x: usize| x as int)
}


/// For each ticket, its sync metadata when it belongs to the project and is synced.
fn project_metas(tickets: &Vec<Ticket>, prefix: &str, provider: &str, repo: &str) -> (r: Vec<Option<SyncMetadata>>)
    ensures
        r@.len() == tickets@.len(),
        forall|i: int|
            0 <= i < r@.len() ==> ((#[trigger] r@[i]) is Some <==> is_synced(tickets@, i, prefix@, provider@, repo@)),
        forall|i: int|
            0 <= i < r@.len() ==> ((#[trigger] r@[i]) matches Some(m) ==> synced_fields(tickets@[i]@, provider@, repo@)
                == Some(m.fields()) && m.remote_updated.wf()),
{
    let mut out: Vec<Option<SyncMetadata>> = Vec::new();
    let mut i: usize = 0;
    while i < tickets.len()
        invariant
            i <= tickets.len(),
            out@.len() == i,
            forall|k: int|
                0 <= k < i ==> ((#[trigger] out@[k]) is Some <==> is_synced(tickets@, k, prefix@, provider@, repo@)),
            forall|k: int|
                0 <= k < i ==> ((#[trigger] out@[k]) matches Some(m) ==> synced_fields(tickets@[k]@, provider@, repo@)
                    == Some(m.fields()) && m.remote_updated.wf()),
        decreases tickets.len() - i,
    {
        let t = &tickets[i];
        let m = if str_eq(t.id.prefix.as_str(), prefix) {
            sync_metadata_for(t, provider, repo)
        } else {
            None
        };
        out.push(m);
        i = i + 1;
    }
    out
}

/// The remote id recorded for a synced ticket.
fn meta_id(metas: &Vec<Option<SyncMetadata>>, k: usize) -> (r: &String)
    requires
        k < metas@.len(),
        metas@[k as int] is Some,
    ensures
        metas@[k as int] matches Some(m) && r@ == m.remote_id@,
{
    match &metas[k] {
        Some(m) => &m.remote_id,
        None => &metas[k].as_ref().unwrap().remote_id,
    }
}

/// Indices of the synced tickets, one per remote id (see `synced_upto`).
fn synced_indices(
    tickets: &Vec<Ticket>,
    metas: &Vec<Option<SyncMetadata>>,
    Ghost(prefix): Ghost<Seq<char>>,
    Ghost(provider): Ghost<Seq<char>>,
    Ghost(repo): Ghost<Seq<char>>,
) -> (r: Vec<usize>)
    requires
        metas@.len() == tickets@.len(),
        forall|i: int|
            0 <= i < metas@.len() ==> ((#[trigger] metas@[i]) is Some <==> is_synced(tickets@, i, prefix, provider, repo)),
        forall|i: int|
            0 <= i < metas@.len() ==> ((#[trigger] metas@[i]) matches Some(m) ==> synced_fields(tickets@[i]@, provider, repo)
                == Some(m.fields())),
    ensures
        as_ints(r@) == synced_upto(tickets@, prefix, provider, repo, tickets@.len() as int),
        forall|k: int| 0 <= k < r@.len() ==> (#[trigger] r@[k]) < tickets@.len() && metas@[r@[k] as int] is Some,
{
    let ghost ts = tickets@;
    let mut out: Vec<usize> = Vec::new();
    let mut i: usize = 0;
    while i < tickets.len()
        invariant
            i <= tickets.len(),
            ts == tickets@,
            metas@.len() == tickets@.len(),
            forall|k: int|
                0 <= k < metas@.len() ==> ((#[trigger] metas@[k]) is Some <==> is_synced(ts, k, prefix, provider, repo)),
            forall|k: int|
                0 <= k < metas@.len() ==> ((#[trigger] metas@[k]) matches Some(m) ==> synced_fields(ts[k]@, provider, repo)
                    == Some(m.fields())),
            as_ints(out@) == synced_upto(ts, prefix, provider, repo, i as int),
            forall|k: int| 0 <= k < out@.len() ==> (#[trigger] out@[k]) < i && metas@[out@[k] as int] is Some,
        decreases tickets.len() - i,
    {
        if metas[i].is_some() {
            let id = meta_id(metas, i);
            let ghost pred = |x: int| synced_id(ts, x, provider, repo) != synced_id(ts, i as int, provider, repo);
            let mut kept: Vec<usize> = Vec::new();
            let mut k: usize = 0;
            while k < out.len()
                invariant
                    k <= out.len(),
                    i < tickets.len(),
                    ts == tickets@,
                    metas@.len() == tickets@.len(),
                    metas@[i as int] matches Some(m) && id@ == m.remote_id@,
                    pred == (|x: int| synced_id(ts, x, provider, repo) != synced_id(ts, i as int, provider, repo)),
                    forall|q: int|
                        0 <= q < metas@.len() ==> ((#[trigger] metas@[q]) matches Some(m) ==> synced_fields(
                            ts[q]@,
                            provider,
                            repo,
                        ) == Some(m.fields())),
                    forall|q: int| 0 <= q < out@.len() ==> (#[trigger] out@[q]) < i && metas@[out@[q] as int] is Some,
                    forall|q: int| 0 <= q < kept@.len() ==> (#[trigger] kept@[q]) < i && metas@[kept@[q] as int] is Some,
                    as_ints(kept@) == as_ints(out@).take(k as int).filter(pred),
                decreases out.len() - k,
            {
                let x = out[k];
                let xid = meta_id(metas, x);
                proof {
                    reveal_with_fuel(Seq::filter, 1);
                    assert(as_ints(out@).take(k + 1).drop_last() =~= as_ints(out@).take(k as int));
                    assert(synced_id(ts, x as int, provider, repo) == xid@);
                    assert(synced_id(ts, i as int, provider, repo) == id@);
                }
                if !str_eq(xid.as_str(), id.as_str()) {
                    let ghost before = kept@;
                    kept.push(x);
                    assert(as_ints(kept@) =~= as_ints(before).push(x as int));
                }
                k = k + 1;
            }
            assert(as_ints(out@).take(out@.len() as int) =~= as_ints(out@));
            let ghost before = kept@;
            kept.push(i);
            assert(as_ints(kept@) =~= as_ints(before).push(i as int));
            out = kept;
        }
        i = i + 1;
    }
    out
}

/// Indices of the project's tickets that are not synced.
fn unsynced_indices(
    tickets: &Vec<Ticket>,
    metas: &Vec<Option<SyncMetadata>>,
    prefix: &str,
    Ghost(provider): Ghost<Seq<char>>,
    Ghost(repo): Ghost<Seq<char>>,
) -> (r: Vec<usize>)
    requires
        metas@.len() == tickets@.len(),
        forall|i: int|
            0 <= i < metas@.len() ==> ((#[trigger] metas@[i]) is Some <==> is_synced(tickets@, i, prefix@, provider, repo)),
    ensures
        as_ints(r@) == unsynced_upto(tickets@, prefix@, provider, repo, tickets@.len() as int),
        forall|k: int| 0 <= k < r@.len() ==> (#[trigger] r@[k]) < tickets@.len(),
{
    let mut out: Vec<usize> = Vec::new();
    let mut i: usize = 0;
    while i < tickets.len()
        invariant
            i <= tickets.len(),
            metas@.len() == tickets@.len(),
            forall|k: int|
                0 <= k < metas@.len() ==> ((#[trigger] metas@[k]) is Some <==> is_synced(tickets@, k, prefix@, provider, repo)),
            as_ints(out@) == unsynced_upto(tickets@, prefix@, provider, repo, i as int),
            forall|k: int| 0 <= k < out@.len() ==> (#[trigger] out@[k]) < i,
        decreases tickets.len() - i,
    {
        if str_eq(tickets[i].id.prefix.as_str(), prefix) && metas[i].is_none() {
            let ghost before = out@;
            out.push(i);
            assert(as_ints(out@) =~= as_ints(before).push(i as int));
        }
        i = i + 1;
    }
    out
}

/// Indices of the remote issues, one per id (the last with that id).
fn remote_indices(remotes: &Vec<RemoteIssue>) -> (r: Vec<usize>)
    ensures
        as_ints(r@) == remotes_upto(remotes@, remotes@.len() as int),
        forall|k: int| 0 <= k < r@.len() ==> (#[trigger] r@[k]) < remotes@.len(),
{
    let ghost rs = remotes@;
    let mut out: Vec<usize> = Vec::new();
    let mut i: usize = 0;
    while i < remotes.len()
        invariant
            i <= remotes.len(),
            rs == remotes@,
            as_ints(out@) == remotes_upto(rs, i as int),
            forall|k: int| 0 <= k < out@.len() ==> (#[trigger] out@[k]) < i,
        decreases remotes.len() - i,
    {
        let id = &remotes[i].remote_id;
        let ghost pred = |j: int| rs[j].remote_id@ != rs[i as int].remote_id@;
        let mut kept: Vec<usize> = Vec::new();
        let mut k: usize = 0;
        while k < out.len()
            invariant
                k <= out.len(),
                i < remotes.len(),
                rs == remotes@,
                id@ == rs[i as int].remote_id@,
                pred == (|j: int| rs[j].remote_id@ != rs[i as int].remote_id@),
                forall|q: int| 0 <= q < out@.len() ==> (#[trigger] out@[q]) < i,
                forall|q: int| 0 <= q < kept@.len() ==> (#[trigger] kept@[q]) < i,
                as_ints(kept@) == as_ints(out@).take(k as int).filter(pred),
            decreases out.len() - k,
        {
            let x = out[k];
            proof {
                reveal_with_fuel(Seq::filter, 1);
                assert(as_ints(out@).take(k + 1).drop_last() =~= as_ints(out@).take(k as int));
            }
            if !str_eq(remotes[x].remote_id.as_str(), id.as_str()) {
                let ghost before = kept@;
                kept.push(x);
                assert(as_ints(kept@) =~= as_ints(before).push(x as int));
            }
            k = k + 1;
        }
        assert(as_ints(out@).take(out@.len() as int) =~= as_ints(out@));
        let ghost before = kept@;
        kept.push(i);
        assert(as_ints(kept@) =~= as_ints(before).push(i as int));
        out = kept;
        i = i + 1;
    }
    out
}

/// The last remote issue with this id.
fn find_remote(remotes: &Vec<RemoteIssue>, id: &str) -> (r: Option<usize>)
    ensures
        r is None <==> remote_with_id(remotes@, id@, remotes@.len() as int) is None,
        r matches Some(x) ==> x < remotes@.len() && remote_with_id(remotes@, id@, remotes@.len() as int)
            == Some(x as int),
{
    let mut j = remotes.len();
    while j > 0
        invariant
            j <= remotes.len(),
            remote_with_id(remotes@, id@, remotes@.len() as int) == remote_with_id(remotes@, id@, j as int),
        decreases j,
    {
        if str_eq(remotes[j - 1].remote_id.as_str(), id) {
            return Some(j - 1);
        }
        j = j - 1;
    }
    None
}


/// The step of the synced ticket `i`.
fn step_for(
    tickets: &Vec<Ticket>,
    remotes: &Vec<RemoteIssue>,
    i: usize,
    m: &SyncMetadata,
    default_status: &str,
    Ghost(provider): Ghost<Seq<char>>,
    Ghost(repo): Ghost<Seq<char>>,
) -> (r: SyncStep)
    requires
        i < tickets@.len(),
        tickets@[i as int].times_wf(),
        synced_fields(tickets@[i as int]@, provider, repo) == Some(m.fields()),
    ensures
        r == synced_step(tickets@, remotes@, i as int, provider, repo, default_status@),
{
    let t = &tickets[i];
    match find_remote(remotes, m.remote_id.as_str()) {
        None => SyncStep::RemoteMissing { ticket: i },
        Some(j) => {
            let hash = compute_content_hash(t, default_status);
            let local_dirty = !str_eq(hash.as_str(), m.content_hash.as_str());
            let remote_dirty = !remotes[j].updated_at.same_instant(&m.remote_updated);
            if local_dirty && remote_dirty {
                SyncStep::Conflict { ticket: i, remote: j }
            } else if local_dirty {
                if t.comments.len() != m.comment_count {
                    SyncStep::PushComments { ticket: i, remote: j }
                } else {
                    SyncStep::RefreshHash { ticket: i }
                }
            } else if remote_dirty {
                SyncStep::Pull { ticket: Some(i), remote: j }
            } else {
                SyncStep::Unchanged { ticket: i }
            }
        },
    }
}

/// Whether some synced ticket names this remote id.
fn id_synced(
    tickets: &Vec<Ticket>,
    metas: &Vec<Option<SyncMetadata>>,
    id: &str,
    Ghost(prefix): Ghost<Seq<char>>,
    Ghost(provider): Ghost<Seq<char>>,
    Ghost(repo): Ghost<Seq<char>>,
) -> (r: bool)
    requires
        metas@.len() == tickets@.len(),
        forall|i: int|
            0 <= i < metas@.len() ==> ((#[trigger] metas@[i]) is Some <==> is_synced(tickets@, i, prefix, provider, repo)),
        forall|i: int|
            0 <= i < metas@.len() ==> ((#[trigger] metas@[i]) matches Some(m) ==> synced_fields(tickets@[i]@, provider, repo)
                == Some(m.fields())),
    ensures
        r == id_is_synced(tickets@, prefix, provider, repo, id@),
{
    let mut k: usize = 0;
    while k < metas.len()
        invariant
            k <= metas.len(),
            metas@.len() == tickets@.len(),
            forall|i: int|
                0 <= i < metas@.len() ==> ((#[trigger] metas@[i]) is Some <==> is_synced(tickets@, i, prefix, provider, repo)),
            forall|i: int|
                0 <= i < metas@.len() ==> ((#[trigger] metas@[i]) matches Some(m) ==> synced_fields(tickets@[i]@, provider, repo)
                    == Some(m.fields())),
            forall|i: int|
                0 <= i < k ==> !(is_synced(tickets@, i, prefix, provider, repo) && #[trigger] synced_id(
                    tickets@,
                    i,
                    provider,
                    repo,
                ) == id@),
        decreases metas.len() - k,
    {
        if metas[k].is_some() {
            let mid = meta_id(metas, k);
            if str_eq(mid.as_str(), id) {
                assert(synced_id(tickets@, k as int, provider, repo) == id@);
                return true;
            }
        }
        k = k + 1;
    }
    false
}

/// The steps of a sync run of the project `prefix` with the remote issues
/// listed: see `sync_plan`. The tickets' comment times must be real minutes.
pub fn plan_sync(
    tickets: &Vec<Ticket>,
    remotes: &Vec<RemoteIssue>,
    prefix: &str,
    provider: &str,
    repo: &str,
    default_status: &str,
) -> (r: Vec<SyncStep>)
    requires
        forall|i: int| 0 <= i < tickets@.len() ==> (#[trigger] tickets@[i]).times_wf(),
    ensures
        r@ == sync_plan(tickets@, remotes@, prefix@, provider@, repo@, default_status@),
{
    let ghost ts = tickets@;
    let ghost rs = remotes@;
    let metas = project_metas(tickets, prefix, provider, repo);
    let synced = synced_indices(tickets, &metas, Ghost(prefix@), Ghost(provider@), Ghost(repo@));
    let ghost sq = synced_upto(ts, prefix@, provider@, repo@, ts.len() as int);
    let ghost part1 = sq.map_values(|i: int| synced_step(ts, rs, i, provider@, repo@, default_status@));
    let mut steps: Vec<SyncStep> = Vec::new();
    let mut k: usize = 0;
    while k < synced.len()
        invariant
            k <= synced.len(),
            ts == tickets@,
            rs == remotes@,
            metas@.len() == tickets@.len(),
            forall|i: int| 0 <= i < tickets@.len() ==> (#[trigger] tickets@[i]).times_wf(),
            forall|i: int|
                0 <= i < metas@.len() ==> ((#[trigger] metas@[i]) matches Some(m) ==> synced_fields(tickets@[i]@, provider@, repo@)
                    == Some(m.fields())),
            as_ints(synced@) == sq,
            part1 == sq.map_values(|i: int| synced_step(ts, rs, i, provider@, repo@, default_status@)),
            forall|q: int| 0 <= q < synced@.len() ==> (#[trigger] synced@[q]) < tickets@.len() && metas@[synced@[q] as int] is Some,
            steps@ == part1.take(k as int),
        decreases synced.len() - k,
    {
        let i = synced[k];
        let st = match &metas[i] {
            Some(m) => step_for(tickets, remotes, i, m, default_status, Ghost(provider@), Ghost(repo@)),
            None => SyncStep::Unchanged { ticket: i },
        };
        assert(sq[k as int] == i as int);
        steps.push(st);
        assert(steps@ =~= part1.take(k + 1));
        k = k + 1;
    }
    assert(part1.take(synced@.len() as int) =~= part1);
    let rem = remote_indices(remotes);
    let ghost rq = remotes_upto(rs, rs.len() as int);
    let ghost rf = rq.filter(|j: int| !id_is_synced(ts, prefix@, provider@, repo@, rs[j].remote_id@));
    let ghost part2 = rf.map_values(|j: int| SyncStep::Pull { ticket: None, remote: j as usize });
    let mut k: usize = 0;
    while k < rem.len()
        invariant
            k <= rem.len(),
            ts == tickets@,
            rs == remotes@,
            metas@.len() == tickets@.len(),
            forall|i: int|
                0 <= i < metas@.len() ==> ((#[trigger] metas@[i]) is Some <==> is_synced(tickets@, i, prefix@, provider@, repo@)),
            forall|i: int|
                0 <= i < metas@.len() ==> ((#[trigger] metas@[i]) matches Some(m) ==> synced_fields(tickets@[i]@, provider@, repo@)
                    == Some(m.fields())),
            as_ints(rem@) == rq,
            forall|q: int| 0 <= q < rem@.len() ==> (#[trigger] rem@[q]) < remotes@.len(),
            rf == rq.filter(|j: int| !id_is_synced(ts, prefix@, provider@, repo@, rs[j].remote_id@)),
            part2 == rf.map_values(|j: int| SyncStep::Pull { ticket: None, remote: j as usize }),
            steps@ == part1 + rq.take(k as int).filter(
                |j: int| !id_is_synced(ts, prefix@, provider@, repo@, rs[j].remote_id@),
            ).map_values(|j: int| SyncStep::Pull { ticket: None, remote: j as usize }),
        decreases rem.len() - k,
    {
        let j = rem[k];
        proof {
            reveal_with_fuel(Seq::filter, 1);
            assert(rq.take(k + 1).drop_last() =~= rq.take(k as int));
            assert(rq[k as int] == j as int);
        }
        let ghost before = steps@;
        if !id_synced(tickets, &metas, remotes[j].remote_id.as_str(), Ghost(prefix@), Ghost(provider@), Ghost(repo@)) {
            steps.push(SyncStep::Pull { ticket: None, remote: j });
        }
        assert(steps@ =~= part1 + rq.take(k + 1).filter(
            |j: int| !id_is_synced(ts, prefix@, provider@, repo@, rs[j].remote_id@),
        ).map_values(|j: int| SyncStep::Pull { ticket: None, remote: j as usize }));
        k = k + 1;
    }
    assert(rq.take(rem@.len() as int) =~= rq);
    assert(steps@ =~= part1 + part2);
    let un = unsynced_indices(tickets, &metas, prefix, Ghost(provider@), Ghost(repo@));
    let ghost uq = unsynced_upto(ts, prefix@, provider@, repo@, ts.len() as int);
    let ghost part3 = uq.map_values(|i: int| SyncStep::PushNew { ticket: i as usize });
    let mut k: usize = 0;
    while k < un.len()
        invariant
            k <= un.len(),
            as_ints(un@) == uq,
            part3 == uq.map_values(|i: int| SyncStep::PushNew { ticket: i as usize }),
            steps@ == part1 + part2 + part3.take(k as int),
        decreases un.len() - k,
    {
        let i = un[k];
        assert(uq[k as int] == i as int);
        steps.push(SyncStep::PushNew { ticket: i });
        assert(steps@ =~= part1 + part2 + part3.take(k + 1));
        k = k + 1;
    }
    assert(part3.take(un@.len() as int) =~= part3);
    steps
}


// ---------------------------------------------------------------------------
// Tickets written after a sync step
// ---------------------------------------------------------------------------
/// The ticket with sync metadata for this remote issue merged into its
/// frontmatter: its current content hash and comment count, and the remote
/// issue's update time.
pub open spec fn with_sync_block(
    t: TicketView,
    provider: Seq<char>,
    repo: Seq<char>,
    remote_id: Seq<char>,
    updated_text: Seq<char>,
    default_status: Seq<char>,
) -> TicketView {
    TicketView {
        frontmatter: Some(
            merge_text(
                sync_block(
                    provider,
                    repo,
                    remote_id,
                    text_hash(canonical_body(t, default_status)),
                    updated_text,
                    t.comments.len(),
                ),
                t.frontmatter,
            ),
        ),
        ..t
    }
}

/// Records in the ticket's frontmatter that it is in sync with a remote issue
/// updated at `updated`.
pub fn with_sync_metadata(
    ticket: &Ticket,
    provider: &str,
    repo: &str,
    remote_id: &str,
    updated: &UtcInstant,
    default_status: &str,
) -> (r: Ticket)
    requires
        ticket.times_wf(),
    ensures
        r@ == with_sync_block(ticket@, provider@, repo@, remote_id@, updated.text@, default_status@),
        r.times_wf(),
{
    let hash = compute_content_hash(ticket, default_status);
    let meta = SyncMetadata {
        provider: provider.to_string(),
        repo: repo.to_string(),
        remote_id: remote_id.to_string(),
        content_hash: hash,
        remote_updated: updated.duplicate(),
        comment_count: ticket.comments.len(),
    };
    let merged = match &ticket.frontmatter {
        Some(f) => meta.merge_into_frontmatter(Some(f.as_str())),
        None => meta.merge_into_frontmatter(None),
    };
    let mut r = ticket.duplicate();
    r.frontmatter = Some(merged);
    r
}

/// The ticket with only the content hash of its sync metadata renewed.
pub open spec fn refreshed_view(t: TicketView, m: SyncMetadata, default_status: Seq<char>) -> TicketView {
    TicketView {
        frontmatter: Some(
            merge_text(
                sync_block(
                    m.provider@,
                    m.repo@,
                    m.remote_id@,
                    text_hash(canonical_body(t, default_status)),
                    m.remote_updated.text@,
                    m.comment_count as nat,
                ),
                t.frontmatter,
            ),
        ),
        ..t
    }
}

/// Renews the content hash in the ticket's sync metadata, all else kept.
pub fn refreshed_ticket(ticket: &Ticket, meta: &SyncMetadata, default_status: &str) -> (r: Ticket)
    requires
        ticket.times_wf(),
    ensures
        r@ == refreshed_view(ticket@, *meta, default_status@),
        r.times_wf(),
{
    let hash = compute_content_hash(ticket, default_status);
    let m = SyncMetadata {
        provider: meta.provider.clone(),
        repo: meta.repo.clone(),
        remote_id: meta.remote_id.clone(),
        content_hash: hash,
        remote_updated: meta.remote_updated.duplicate(),
        comment_count: meta.comment_count,
    };
    let merged = match &ticket.frontmatter {
        Some(f) => m.merge_into_frontmatter(Some(f.as_str())),
        None => m.merge_into_frontmatter(None),
    };
    let mut r = ticket.duplicate();
    r.frontmatter = Some(merged);
    r
}

/// A remote comment as a local comment: its time to the minute, its body escaped.
pub open spec fn pulled_comment(author: Seq<char>, at: UtcInstant, body: Seq<char>) -> CommentView {
    CommentView { author, timestamp: Some(at.minute), body: escaped_body(body) }
}

/// The issue's body as the first comment (by its author, at its creation),
/// then its comments.
pub open spec fn pulled_comments(full: RemoteIssue) -> Seq<CommentView> {
    seq![pulled_comment(full.author@, full.created_at, full.body@)] + full.comments@.map_values(
        |c: RemoteComment| pulled_comment(c.author@, c.created_at, c.body@),
    )
}

/// A remote issue read into a ticket: title, comments and open/closed state
/// from the issue; status, frontmatter and preamble kept from the existing
/// ticket (none for a new one); then the sync metadata recorded.
pub open spec fn pulled_view(
    existing: Option<TicketView>,
    prefix: Seq<char>,
    number: u32,
    full: RemoteIssue,
    provider: Seq<char>,
    repo: Seq<char>,
    default_status: Seq<char>,
) -> TicketView {
    let base = TicketView {
        prefix,
        number,
        title: full.title@,
        status: match existing {
            Some(t) => t.status,
            None => None,
        },
        frontmatter: match existing {
            Some(t) => t.frontmatter,
            None => None,
        },
        preamble: match existing {
            Some(t) => t.preamble,
            None => seq![],
        },
        comments: pulled_comments(full),
        is_closed: full.state == RemoteState::Closed,
    };
    with_sync_block(base, provider, repo, full.remote_id@, full.updated_at.text@, default_status)
}

fn pull_comment(author: &String, at: &UtcInstant, body: &String) -> (r: Comment)
    requires
        at.wf(),
    ensures
        r@ == pulled_comment(author@, *at, body@),
        r.timestamp matches Some(t) && t.wf(),
{
    Comment { author: author.clone(), timestamp: Some(at.minute), body: escape_body(body.clone()) }
}

/// The ticket a remote issue is read into (`existing` is the ticket synced
/// with it, if any; `id` is the ticket's id).
pub fn pulled_ticket(
    existing: Option<&Ticket>,
    id: TicketId,
    full: &RemoteIssue,
    provider: &str,
    repo: &str,
    default_status: &str,
) -> (r: Ticket)
    requires
        full.wf(),
    ensures
        r@ == pulled_view(
            match existing {
                Some(t) => Some(t@),
                None => None,
            },
            id.prefix@,
            id.number,
            *full,
            provider@,
            repo@,
            default_status@,
        ),
        r.times_wf(),
{
    let mut comments: Vec<Comment> = Vec::new();
    comments.push(pull_comment(&full.author, &full.created_at, &full.body));
    let ghost head = comments@;
    let mut i: usize = 0;
    while i < full.comments.len()
        invariant
            i <= full.comments.len(),
            full.wf(),
            comments@.len() == i + 1,
            comment_views(comments@) == seq![pulled_comment(full.author@, full.created_at, full.body@)]
                + full.comments@.take(i as int).map_values(
                |c: RemoteComment| pulled_comment(c.author@, c.created_at, c.body@),
            ),
            forall|k: int| 0 <= k < comments@.len() ==> ((#[trigger] comments@[k]).timestamp matches Some(t) && t.wf()),
        decreases full.comments.len() - i,
    {
        let rc = &full.comments[i];
        let c = pull_comment(&rc.author, &rc.created_at, &rc.body);
        let ghost before = comments@;
        comments.push(c);
        assert(comment_views(comments@) =~= seq![pulled_comment(full.author@, full.created_at, full.body@)]
            + full.comments@.take(i + 1).map_values(
            |c: RemoteComment| pulled_comment(c.author@, c.created_at, c.body@),
        )) by {
            assert(comment_views(comments@) =~= comment_views(before).push(c@));
        }
        i = i + 1;
    }
    assert(full.comments@.take(full.comments@.len() as int) =~= full.comments@);
    let is_closed = match full.state {
        RemoteState::Closed => true,
        RemoteState::Open => false,
    };
    let base = Ticket {
        id,
        title: full.title.clone(),
        status: match existing {
            Some(t) => duplicate_text(&t.status),
            None => None,
        },
        frontmatter: match existing {
            Some(t) => duplicate_text(&t.frontmatter),
            None => None,
        },
        preamble: match existing {
            Some(t) => t.preamble.clone(),
            None => String::new(),
        },
        comments,
        is_closed,
    };
    assert(base@.comments =~= pulled_comments(*full));
    with_sync_metadata(&base, provider, repo, full.remote_id.as_str(), &full.updated_at, default_status)
}

/// The texts of the ticket's comments from index `from` on, as they are pushed.
pub fn comments_to_push(ticket: &Ticket, from: usize) -> (r: Vec<String>)
    requires
        from <= ticket.comments@.len(),
        ticket.times_wf(),
    ensures
        r@.len() == ticket.comments@.len() - from,
        forall|k: int| 0 <= k < r@.len() ==> (#[trigger] r@[k])@ == pushed_comment_text(ticket.comments@[from + k]@),
{
    let mut out: Vec<String> = Vec::new();
    let mut i = from;
    while i < ticket.comments.len()
        invariant
            from <= i <= ticket.comments@.len(),
            ticket.times_wf(),
            out@.len() == i - from,
            forall|k: int| 0 <= k < out@.len() ==> (#[trigger] out@[k])@ == pushed_comment_text(ticket.comments@[from + k]@),
        decreases ticket.comments@.len() - i,
    {
        let c = &ticket.comments[i];
        assert(ticket.comments@[i as int].timestamp matches Some(t) ==> t.wf());
        out.push(format_comment_for_push(c));
        i = i + 1;
    }
    out
}

/// Where a pulled ticket's file goes when the remote issue was closed or reopened.
#[derive(Debug, Clone, Copy, PartialEq, Eq, Structural)]
pub enum FileMove {
    ToDone,
    FromDone,
    Stay,
}

/// Closed now and open before: to `done/`; open now and closed before: back.
pub fn file_move(was_closed: bool, is_closed: bool) -> (r: FileMove)
    ensures
        r == (if is_closed && !was_closed {
            FileMove::ToDone
        } else if !is_closed && was_closed {
            FileMove::FromDone
        } else {
            FileMove::Stay
        }),
{
    if is_closed && !was_closed {
        FileMove::ToDone
    } else if !is_closed && was_closed {
        FileMove::FromDone
    } else {
        FileMove::Stay
    }
}


// ---------------------------------------------------------------------------
// The summary of a sync run
// ---------------------------------------------------------------------------
/// Counts of what a sync run did, and the errors it met.
#[derive(Debug)]
pub struct SyncSummary {
    pub pulled: usize,
    pub pushed_new: usize,
    pub pushed_comments: usize,
    pub conflicts: usize,
    pub unchanged: usize,
    pub errors: Vec<String>,
}

impl Default for SyncSummary {
    fn default() -> (r: SyncSummary)
        ensures
            r.pulled == 0,
            r.pushed_new == 0,
            r.pushed_comments == 0,
            r.conflicts == 0,
            r.unchanged == 0,
            r.errors@.len() == 0,
    {
        SyncSummary { pulled: 0, pushed_new: 0, pushed_comments: 0, conflicts: 0, unchanged: 0, errors: Vec::new() }
    }
}

/// What came of one sync step.
#[derive(Debug)]
pub enum SyncOutcome {
    Pulled,
    PushedNew,
    PushedComments,
    Conflict,
    Unchanged,
    /// The step failed with this message.
    Failed(String),
}

/// The counter an outcome adds to has room.
pub open spec fn can_record(s: SyncSummary, o: SyncOutcome) -> bool {
    match o {
        SyncOutcome::Pulled => s.pulled < usize::MAX,
        SyncOutcome::PushedNew => s.pushed_new < usize::MAX,
        SyncOutcome::PushedComments => s.pushed_comments < usize::MAX,
        SyncOutcome::Conflict => s.conflicts < usize::MAX,
        SyncOutcome::Unchanged => s.unchanged < usize::MAX,
        SyncOutcome::Failed(_) => true,
    }
}

/// `  Label: n` when `n` is not zero.
pub open spec fn count_line(label: Seq<char>, n: usize) -> Seq<Seq<char>> {
    if n > 0 {
        seq![seq![' ', ' '] + label + seq![':', ' '] + decimal(n as nat)]
    } else {
        seq![]
    }
}

pub open spec fn pulled_label() -> Seq<char> {
    seq!['P', 'u', 'l', 'l', 'e', 'd']
}

pub open spec fn pushed_new_label() -> Seq<char> {
    seq!['P', 'u', 's', 'h', 'e', 'd', ' ', '(', 'n', 'e', 'w', ' ', 'i', 's', 's', 'u', 'e', 's', ')']
}

pub open spec fn pushed_comments_label() -> Seq<char> {
    seq!['P', 'u', 's', 'h', 'e', 'd', ' ', '(', 'c', 'o', 'm', 'm', 'e', 'n', 't', 's', ')']
}

pub open spec fn conflicts_label() -> Seq<char> {
    seq!['C', 'o', 'n', 'f', 'l', 'i', 'c', 't', 's', ' ', '(', 's', 'k', 'i', 'p', 'p', 'e', 'd', ')']
}

pub open spec fn unchanged_label() -> Seq<char> {
    seq!['U', 'n', 'c', 'h', 'a', 'n', 'g', 'e', 'd']
}

pub open spec fn error_label() -> Seq<char> {
    seq![' ', ' ', 'E', 'r', 'r', 'o', 'r', ':', ' ']
}

/// The report of a summary: one line per count that is not zero.
pub open spec fn summary_lines(s: SyncSummary) -> Seq<Seq<char>> {
    count_line(pulled_label(), s.pulled) + count_line(pushed_new_label(), s.pushed_new) + count_line(
        pushed_comments_label(),
        s.pushed_comments,
    ) + count_line(conflicts_label(), s.conflicts) + count_line(unchanged_label(), s.unchanged)
}

fn push_count_line(out: &mut Vec<String>, label: Vec<char>, n: usize)
    ensures
        final(out)@.map_values(|l: String| l@) == old(out)@.map_values(|l: String| l@) + count_line(label@, n),
{
    let ghost before = out@;
    if n > 0 {
        let mut line = vec![' ', ' '];
        push_all(&mut line, &label);
        line.push(':');
        line.push(' ');
        let d = decimal_chars(n as u64);
        push_all(&mut line, &d);
        let l = string_from_chars(&line);
        assert(l@ =~= seq![' ', ' '] + label@ + seq![':', ' '] + decimal(n as nat));
        out.push(l);
        assert(out@.map_values(|l: String| l@) =~= before.map_values(|l: String| l@) + count_line(label@, n));
    } else {
        assert(out@.map_values(|l: String| l@) =~= before.map_values(|l: String| l@) + count_line(label@, n));
    }
}

impl SyncSummary {
    /// Counts the outcome of one step (a failure adds its message to the errors).
    pub fn record(&mut self, outcome: SyncOutcome)
        requires
            can_record(*old(self), outcome),
        ensures
            final(self).pulled == old(self).pulled + (if outcome is Pulled { 1int } else { 0 }),
            final(self).pushed_new == old(self).pushed_new + (if outcome is PushedNew { 1int } else { 0 }),
            final(self).pushed_comments == old(self).pushed_comments + (if outcome is PushedComments { 1int } else { 0 }),
            final(self).conflicts == old(self).conflicts + (if outcome is Conflict { 1int } else { 0 }),
            final(self).unchanged == old(self).unchanged + (if outcome is Unchanged { 1int } else { 0 }),
            final(self).errors@ == (match outcome {
                SyncOutcome::Failed(m) => old(self).errors@.push(m),
                _ => old(self).errors@,
            }),
    {
        match outcome {
            SyncOutcome::Pulled => self.pulled = self.pulled + 1,
            SyncOutcome::PushedNew => self.pushed_new = self.pushed_new + 1,
            SyncOutcome::PushedComments => self.pushed_comments = self.pushed_comments + 1,
            SyncOutcome::Conflict => self.conflicts = self.conflicts + 1,
            SyncOutcome::Unchanged => self.unchanged = self.unchanged + 1,
            SyncOutcome::Failed(m) => self.errors.push(m),
        }
    }

    /// The lines that report the counts: `  Pulled: n`, `  Pushed (new issues): n`,
    /// `  Pushed (comments): n`, `  Conflicts (skipped): n`, `  Unchanged: n`,
    /// each only when its count is not zero.
    pub fn report_lines(&self) -> (r: Vec<String>)
        ensures
            r@.map_values(|l: String| l@) == summary_lines(*self),
    {
        let mut out: Vec<String> = Vec::new();
        let l1 = vec!['P', 'u', 'l', 'l', 'e', 'd'];
        assert(l1@ =~= pulled_label());
        let l2 = vec!['P', 'u', 's', 'h', 'e', 'd', ' ', '(', 'n', 'e', 'w', ' ', 'i', 's', 's', 'u', 'e', 's', ')'];
        assert(l2@ =~= pushed_new_label());
        let l3 = vec!['P', 'u', 's', 'h', 'e', 'd', ' ', '(', 'c', 'o', 'm', 'm', 'e', 'n', 't', 's', ')'];
        assert(l3@ =~= pushed_comments_label());
        let l4 = vec!['C', 'o', 'n', 'f', 'l', 'i', 'c', 't', 's', ' ', '(', 's', 'k', 'i', 'p', 'p', 'e', 'd', ')'];
        assert(l4@ =~= conflicts_label());
        let l5 = vec!['U', 'n', 'c', 'h', 'a', 'n', 'g', 'e', 'd'];
        assert(l5@ =~= unchanged_label());
        assert(out@.map_values(|l: String| l@) =~= Seq::<Seq<char>>::empty());
        push_count_line(&mut out, l1, self.pulled);
        push_count_line(&mut out, l2, self.pushed_new);
        push_count_line(&mut out, l3, self.pushed_comments);
        push_count_line(&mut out, l4, self.conflicts);
        push_count_line(&mut out, l5, self.unchanged);
        assert(out@.map_values(|l: String| l@) =~= summary_lines(*self));
        out
    }

    /// The lines that report the errors: `  Error: message`, one per error.
    pub fn error_lines(&self) -> (r: Vec<String>)
        ensures
            r@.len() == self.errors@.len(),
            forall|k: int| 0 <= k < r@.len() ==> (#[trigger] r@[k])@ == error_label() + self.errors@[k]@,
    {
        let mut out: Vec<String> = Vec::new();
        let mut i: usize = 0;
        while i < self.errors.len()
            invariant
                i <= self.errors.len(),
                out@.len() == i,
                forall|k: int| 0 <= k < i ==> (#[trigger] out@[k])@ == error_label() + self.errors@[k]@,
            decreases self.errors.len() - i,
        {
            let mut line = vec![' ', ' ', 'E', 'r', 'r', 'o', 'r', ':', ' '];
            assert(line@ =~= error_label());
            let e = chars_of(self.errors[i].as_str());
            push_all(&mut line, &e);
            out.push(string_from_chars(&line));
            i = i + 1;
        }
        out
    }
}

// ---------------------------------------------------------------------------
// Sync status of local tickets
// ---------------------------------------------------------------------------
/// How a ticket stands with respect to its last sync.
#[derive(Debug)]
pub enum TicketSyncState {
    /// Synced and unchanged since.
    Clean { remote_id: String },
    /// Synced and changed locally since.
    Dirty { remote_id: String },
    /// Without sync metadata.
    Unsynced,
}

/// The state of a ticket with respect to a provider and repository: synced
/// when its frontmatter holds readable sync metadata of that provider and
/// repository (a ticket without it is pushed by the next sync run, see
/// `sync_plan`), dirty when its content hash differs from the recorded one.
pub open spec fn sync_state_matches(
    t: TicketView,
    provider: Seq<char>,
    repo: Seq<char>,
    default_status: Seq<char>,
    s: TicketSyncState,
) -> bool {
    match synced_fields(t, provider, repo) {
        Some(m) => if text_hash(canonical_body(t, default_status)) != m.content_hash {
            s matches TicketSyncState::Dirty { remote_id } && remote_id@ == m.remote_id
        } else {
            s matches TicketSyncState::Clean { remote_id } && remote_id@ == m.remote_id
        },
        None => s is Unsynced,
    }
}

/// The sync state of a ticket for a provider and repository (read from its
/// frontmatter, without contacting the remote).
pub fn ticket_sync_state(ticket: &Ticket, provider: &str, repo: &str, default_status: &str) -> (r: TicketSyncState)
    requires
        ticket.times_wf(),
    ensures
        sync_state_matches(ticket@, provider@, repo@, default_status@, r),
{
    match sync_metadata_for(ticket, provider, repo) {
        Some(m) => {
            let h = compute_content_hash(ticket, default_status);
            if !str_eq(h.as_str(), m.content_hash.as_str()) {
                TicketSyncState::Dirty { remote_id: m.remote_id }
            } else {
                TicketSyncState::Clean { remote_id: m.remote_id }
            }
        },
        None => TicketSyncState::Unsynced,
    }
}

/// Indices of the tickets with this prefix.
pub open spec fn with_prefix_upto(ts: Seq<Ticket>, prefix: Seq<char>, n: int) -> Seq<int>
    decreases n,
{
    if n <= 0 {
        seq![]
    } else if ts[n - 1]@.prefix == prefix {
        with_prefix_upto(ts, prefix, n - 1).push(n - 1)
    } else {
        with_prefix_upto(ts, prefix, n - 1)
    }
}

/// Indices, in order, of the tickets with this prefix.
pub fn tickets_with_prefix(tickets: &Vec<Ticket>, prefix: &str) -> (r: Vec<usize>)
    ensures
        as_ints(r@) == with_prefix_upto(tickets@, prefix@, tickets@.len() as int),
        forall|k: int| 0 <= k < r@.len() ==> (#[trigger] r@[k]) < tickets@.len(),
{
    let mut out: Vec<usize> = Vec::new();
    let mut i: usize = 0;
    while i < tickets.len()
        invariant
            i <= tickets.len(),
            as_ints(out@) == with_prefix_upto(tickets@, prefix@, i as int),
            forall|k: int| 0 <= k < out@.len() ==> (#[trigger] out@[k]) < i,
        decreases tickets.len() - i,
    {
        if str_eq(tickets[i].id.prefix.as_str(), prefix) {
            let ghost before = out@;
            out.push(i);
            assert(as_ints(out@) =~= as_ints(before).push(i as int));
        }
        i = i + 1;
    }
    out
}

/// Number of states of each kind: (synced, dirty, unsynced); a dirty ticket is also synced.
pub open spec fn state_counts(ss: Seq<TicketSyncState>) -> (nat, nat, nat)
    decreases ss.len(),
{
    if ss.len() == 0 {
        (0, 0, 0)
    } else {
        let (a, b, c) = state_counts(ss.drop_last());
        match ss.last() {
            TicketSyncState::Clean { .. } => (a + 1, b, c),
            TicketSyncState::Dirty { .. } => (a + 1, b + 1, c),
            TicketSyncState::Unsynced => (a, b, c + 1),
        }
    }
}

proof fn lemma_state_counts_bound(ss: Seq<TicketSyncState>)
    ensures
        state_counts(ss).0 + state_counts(ss).2 == ss.len(),
        state_counts(ss).1 <= state_counts(ss).0,
    decreases ss.len(),
{
    if ss.len() > 0 {
        lemma_state_counts_bound(ss.drop_last());
    }
}

/// Counts the synced (clean or dirty), dirty and unsynced tickets.
pub fn count_states(states: &Vec<TicketSyncState>) -> (r: (usize, usize, usize))
    ensures
        (r.0 as nat, r.1 as nat, r.2 as nat) == state_counts(states@),
{
    let mut synced: usize = 0;
    let mut dirty: usize = 0;
    let mut unsynced: usize = 0;
    let mut i: usize = 0;
    while i < states.len()
        invariant
            i <= states.len(),
            (synced as nat, dirty as nat, unsynced as nat) == state_counts(states@.take(i as int)),
        decreases states.len() - i,
    {
        let ghost t = states@.take(i + 1);
        assert(t.drop_last() =~= states@.take(i as int));
        proof {
            lemma_state_counts_bound(states@.take(i as int));
        }
        match &states[i] {
            TicketSyncState::Clean { .. } => {
                synced = synced + 1;
            },
            TicketSyncState::Dirty { .. } => {
                synced = synced + 1;
                dirty = dirty + 1;
            },
            TicketSyncState::Unsynced => {
                unsynced = unsynced + 1;
            },
        }
        i = i + 1;
    }
    assert(states@.take(states.len() as int) =~= states@);
    (synced, dirty, unsynced)
}


/// The last remote issue with an id is the one `remote_with_id` finds.
proof fn lemma_remote_with_id_last(rs: Seq<RemoteIssue>, id: Seq<char>, j: int, n: int)
    requires
        0 <= j < n <= rs.len(),
        rs[j].remote_id@ == id,
        forall|k: int| j < k < rs.len() ==> #[trigger] rs[k].remote_id@ != id,
    ensures
        remote_with_id(rs, id, n) == Some(j),
    decreases n,
{
    if n - 1 > j {
        lemma_remote_with_id_last(rs, id, j, n - 1);
    }
}

/// A synced ticket whose content changed since the last sync (its content
/// hash differs from the recorded one) and whose remote issue changed too (its
/// update time differs from the recorded one) is a conflict with that issue,
/// whatever the comment counts: the sync skips it. The remote issue is the
/// last one listed with the recorded id.
pub proof fn law_both_changed_is_conflict(
    ts: Seq<Ticket>,
    rs: Seq<RemoteIssue>,
    i: int,
    j: int,
    provider: Seq<char>,
    repo: Seq<char>,
    default_status: Seq<char>,
)
    requires
        0 <= i < ts.len(),
        0 <= j < rs.len(),
        synced_fields(ts[i]@, provider, repo) is Some,
        rs[j].remote_id@ == synced_fields(ts[i]@, provider, repo).unwrap().remote_id,
        forall|k: int|
            j < k < rs.len() ==> #[trigger] rs[k].remote_id@ != synced_fields(ts[i]@, provider, repo).unwrap().remote_id,
        text_hash(canonical_body(ts[i]@, default_status)) != synced_fields(ts[i]@, provider, repo).unwrap().content_hash,
        (rs[j].updated_at.secs as int, rs[j].updated_at.nanos as int) != synced_fields(
            ts[i]@,
            provider,
            repo,
        ).unwrap().remote_updated,
    ensures
        synced_step(ts, rs, i, provider, repo, default_status) == (SyncStep::Conflict {
            ticket: i as usize,
            remote: j as usize,
        }),
{
    let m = synced_fields(ts[i]@, provider, repo).unwrap();
    lemma_remote_with_id_last(rs, m.remote_id, j, rs.len() as int);
}

proof fn lemma_in_synced_upto(
    ts: Seq<Ticket>,
    prefix: Seq<char>,
    provider: Seq<char>,
    repo: Seq<char>,
    i: int,
    n: int,
)
    requires
        0 <= i < n <= ts.len(),
        is_synced(ts, i, prefix, provider, repo),
        forall|j: int|
            i < j < ts.len() && #[trigger] is_synced(ts, j, prefix, provider, repo) ==> synced_id(ts, j, provider, repo)
                != synced_id(ts, i, provider, repo),
    ensures
        synced_upto(ts, prefix, provider, repo, n).contains(i),
    decreases n,
{
    let r = synced_upto(ts, prefix, provider, repo, n - 1);
    if n - 1 == i {
        let r2 = r.filter(|k: int| synced_id(ts, k, provider, repo) != synced_id(ts, n - 1, provider, repo)).push(n - 1);
        assert(r2[r2.len() - 1] == i);
    } else {
        lemma_in_synced_upto(ts, prefix, provider, repo, i, n - 1);
        if is_synced(ts, n - 1, prefix, provider, repo) {
            let pred = |k: int| synced_id(ts, k, provider, repo) != synced_id(ts, n - 1, provider, repo);
            let x = choose|x: int| 0 <= x < r.len() && r[x] == i;
            r.lemma_filter_contains(pred, x);
            let f = r.filter(pred);
            let y = choose|y: int| 0 <= y < f.len() && f[y] == i;
            assert(f.push(n - 1)[y] == i);
        }
    }
}

/// Every synced ticket of the project gets its step in the plan, unless a
/// later ticket of the project is synced with the same remote issue (then that
/// one speaks for the issue).
pub proof fn law_plan_has_step_of_synced_ticket(
    ts: Seq<Ticket>,
    rs: Seq<RemoteIssue>,
    prefix: Seq<char>,
    provider: Seq<char>,
    repo: Seq<char>,
    default_status: Seq<char>,
    i: int,
)
    requires
        0 <= i < ts.len(),
        ts[i]@.prefix == prefix,
        synced_fields(ts[i]@, provider, repo) is Some,
        forall|j: int|
            i < j < ts.len() && ts[j]@.prefix == prefix && (#[trigger] synced_fields(ts[j]@, provider, repo)) is Some
                ==> synced_fields(ts[j]@, provider, repo).unwrap().remote_id != synced_fields(
                ts[i]@,
                provider,
                repo,
            ).unwrap().remote_id,
    ensures
        sync_plan(ts, rs, prefix, provider, repo, default_status).contains(
            synced_step(ts, rs, i, provider, repo, default_status),
        ),
{
    assert forall|j: int|
        i < j < ts.len() && #[trigger] is_synced(ts, j, prefix, provider, repo) implies synced_id(ts, j, provider, repo)
        != synced_id(ts, i, provider, repo) by {
        assert(synced_fields(ts[j]@, provider, repo) is Some);
    }
    lemma_in_synced_upto(ts, prefix, provider, repo, i, ts.len() as int);
    let su = synced_upto(ts, prefix, provider, repo, ts.len() as int);
    let x = choose|x: int| 0 <= x < su.len() && su[x] == i;
    let part = su.map_values(|k: int| synced_step(ts, rs, k, provider, repo, default_status));
    let plan = sync_plan(ts, rs, prefix, provider, repo, default_status);
    assert(part[x] == synced_step(ts, rs, i, provider, repo, default_status));
    assert(plan[x] == part[x]);
}

/// A ticket pulled over an existing one keeps that ticket's status and
/// preamble, and takes its title and open/closed state from the remote issue. A ticket
/// pulled as new has no status and no preamble.
pub proof fn law_pull_keeps_local_fields(
    existing: Option<TicketView>,
    prefix: Seq<char>,
    number: u32,
    full: RemoteIssue,
    provider: Seq<char>,
    repo: Seq<char>,
    default_status: Seq<char>,
)
    ensures
        ({
            let r = pulled_view(existing, prefix, number, full, provider, repo, default_status);
            &&& r.prefix == prefix && r.number == number
            &&& r.title == full.title@
            &&& r.is_closed == (full.state == RemoteState::Closed)
            &&& match existing {
                Some(t) => r.status == t.status && r.preamble == t.preamble,
                None => r.status is None && r.preamble.len() == 0,
            }
        }),
{
}

/// The content hash does not cover the frontmatter: tickets that differ only
/// there have the same canonical text without it.
pub proof fn law_hash_ignores_frontmatter(t: TicketView, fm: Option<Seq<char>>, default_status: Seq<char>)
    ensures
        canonical_body(TicketView { frontmatter: fm, ..t }, default_status) == canonical_body(t, default_status),
{
}

/// A ticket written after a sync step (its sync metadata recorded by
/// `with_sync_metadata`) reads back as synced with that remote issue, with its
/// own content hash, comment count and the issue's update time: the next run
/// finds it changed on neither side until one of them changes. This holds for
/// provider, repository and remote id without line breaks that `trim` leaves
/// unchanged, and an update time whose year has four digits.
pub proof fn law_written_ticket_is_clean(
    t: TicketView,
    provider: Seq<char>,
    repo: Seq<char>,
    remote_id: Seq<char>,
    updated: UtcInstant,
    default_status: Seq<char>,
)
    requires
        clean_value(provider),
        clean_value(repo),
        clean_value(remote_id),
        updated.wf(),
        0 <= updated.minute.year <= 9999,
        t.comments.len() <= usize::MAX,
    ensures
        ({
            let w = with_sync_block(t, provider, repo, remote_id, updated.text@, default_status);
            synced_fields(w, provider, repo) == Some(
                MetadataFields {
                    provider,
                    repo,
                    remote_id,
                    content_hash: text_hash(canonical_body(w, default_status)),
                    remote_updated: (updated.secs as int, updated.nanos as int),
                    comment_count: t.comments.len() as usize,
                },
            )
        }),
{
    let h = text_hash(canonical_body(t, default_status));
    lemma_lower_hex_clean(crate::metadata::sha256(vstd::utf8::encode_utf8(canonical_body(t, default_status))));
    lemma_instant_text_clean(updated);
    lemma_merge_block(provider, repo, remote_id, h, updated.text@, t.comments.len() as usize, t.frontmatter);
    let w = with_sync_block(t, provider, repo, remote_id, updated.text@, default_status);
    law_hash_ignores_frontmatter(t, w.frontmatter, default_status);
    assert(canonical_body(w, default_status) == canonical_body(t, default_status));
}

} // verus!
