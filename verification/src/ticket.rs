//! The data model (ticket ids, tickets, comments) and the canonical form a
//! ticket file is written in.
use vstd::prelude::*;
use crate::text::{is_ascii_digit, is_ascii_upper, chars_of, string_from_chars, slice_chars, push_all, chars_eq, find_char, lemma_find_char, lemma_find_char_unique, lemma_decimal_digits, nl, decimal, parse_u32_spec, decimal_chars, parse_unsigned};
use crate::timestamp::{minute_text, format_minute_text, Timestamp};

verus! {

/// A ticket identifier such as `LAW-2`.
#[derive(Debug, Clone)]
pub struct TicketId {
    pub prefix: String,
    pub number: u32,
}

/// Prefix letters: an ASCII upper-case letter, then upper-case letters and digits.
pub open spec fn valid_prefix(p: Seq<char>) -> bool {
    &&& p.len() > 0
    &&& is_ascii_upper(p[0])
    &&& forall|i: int| 0 <= i < p.len() ==> is_ascii_upper(#[trigger] p[i]) || is_ascii_digit(p[i])
}

/// `PREFIX-NUMBER`.
pub open spec fn id_text(prefix: Seq<char>, number: u32) -> Seq<char> {
    prefix + seq!['-'] + decimal(number as nat)
}

/// What `TicketId::parse` reads from `s`: split at the first `-`, the rest read
/// as a `u32` the way `str::parse` does, the prefix checked by `valid_prefix`.
pub open spec fn ticket_id_from_text(s: Seq<char>) -> Option<(Seq<char>, u32)> {
    let p = find_char(s, '-', 0);
    if p >= s.len() {
        None
    } else {
        let prefix = s.take(p);
        match parse_u32_spec(s.skip(p + 1)) {
            Some(n) => if valid_prefix(prefix) {
                Some((prefix, n))
            } else {
                None
            },
            None => None,
        }
    }
}

/// Whether every character of `p` is a valid prefix character, and the first is a letter.
pub fn is_valid_prefix(p: &Vec<char>) -> (r: bool)
    ensures
        r == valid_prefix(p@),
{
    if p.len() == 0 {
        return false;
    }
    if !('A' <= p[0] && p[0] <= 'Z') {
        return false;
    }
    let mut i: usize = 0;
    while i < p.len()
        invariant
            i <= p.len(),
            forall|k: int| 0 <= k < i ==> is_ascii_upper(#[trigger] p@[k]) || is_ascii_digit(p@[k]),
        decreases p.len() - i,
    {
        let c = p[i];
        if !(('A' <= c && c <= 'Z') || ('0' <= c && c <= '9')) {
            assert(!(is_ascii_upper(p@[i as int]) || is_ascii_digit(p@[i as int])));
            return false;
        }
        i = i + 1;
    }
    true
}

/// Index of the first `c` at or after `from`, or `s.len()`.
pub fn find_char_from(s: &Vec<char>, c: char, from: usize) -> (r: usize)
    requires
        from <= s.len(),
    ensures
        r as int == find_char(s@, c, from as int),
{
    proof {
        lemma_find_char(s@, c, from as int);
    }
    let mut i = from;
    while i < s.len() && s[i] != c
        invariant
            from <= i <= s.len(),
            find_char(s@, c, i as int) == find_char(s@, c, from as int),
        decreases s.len() - i,
    {
        i = i + 1;
    }
    i
}

/// An id's text reads back as the id: `TicketId::parse` of `PREFIX-NUMBER`
/// gives the prefix and number, for every valid prefix and every number.
pub proof fn law_id_text_reads_back(prefix: Seq<char>, number: u32)
    requires
        valid_prefix(prefix),
    ensures
        ticket_id_from_text(id_text(prefix, number)) == Some((prefix, number)),
{
    let s = id_text(prefix, number);
    let d = decimal(number as nat);
    assert forall|k: int| 0 <= k < prefix.len() implies #[trigger] s[k] != '-' by {
        assert(s[k] == prefix[k]);
        assert(is_ascii_upper(prefix[k]) || is_ascii_digit(prefix[k]));
    }
    assert(s[prefix.len() as int] == '-');
    lemma_find_char_unique(s, '-', 0, prefix.len() as int);
    assert(s.take(prefix.len() as int) =~= prefix);
    assert(s.skip(prefix.len() as int + 1) =~= d);
    lemma_decimal_digits(number as nat);
    assert(d[0] != '+') by {
        assert(is_ascii_digit(d[0]));
    }
}

impl TicketId {
    /// Reads `PREFIX-NUMBER`.
    pub fn parse(s: &str) -> (r: Option<TicketId>)
        ensures
            r is Some <==> ticket_id_from_text(s@) is Some,
            r matches Some(id) ==> ticket_id_from_text(s@) == Some((id.prefix@, id.number)),
    {
        let cs = chars_of(s);
        let p = find_char_from(&cs, '-', 0);
        if p >= cs.len() {
            return None;
        }
        let prefix = slice_chars(&cs, 0, p);
        let rest = slice_chars(&cs, p + 1, cs.len());
        proof {
            assert(prefix@ =~= s@.take(p as int));
            assert(rest@ =~= s@.skip(p + 1));
        }
        let n = match parse_unsigned(&rest, 0xffff_ffff) {
            Some(v) => v as u32,
            None => {
                return None;
            },
        };
        if !is_valid_prefix(&prefix) {
            return None;
        }
        Some(TicketId { prefix: string_from_chars(&prefix), number: n })
    }

    pub fn new(prefix: &str, number: u32) -> (r: TicketId)
        ensures
            r.prefix@ == prefix@,
            r.number == number,
    {
        TicketId { prefix: prefix.to_string(), number }
    }

    /// `PREFIX-NUMBER`, as the ticket's heading and file name show it.
    pub fn to_string(&self) -> (r: String)
        ensures
            r@ == id_text(self.prefix@, self.number),
    {
        string_from_chars(&self.text_chars())
    }

    pub fn text_chars(&self) -> (r: Vec<char>)
        ensures
            r@ == id_text(self.prefix@, self.number),
    {
        let mut out = chars_of(self.prefix.as_str());
        out.push('-');
        let d = decimal_chars(self.number as u64);
        push_all(&mut out, &d);
        out
    }

    pub fn same(&self, other: &TicketId) -> (r: bool)
        ensures
            r == (self.prefix@ == other.prefix@ && self.number == other.number),
    {
        let a = chars_of(self.prefix.as_str());
        let b = chars_of(other.prefix.as_str());
        chars_eq(&a, &b) && self.number == other.number
    }
}

/// A comment: author, optional time, body.
#[derive(Debug, Clone)]
pub struct Comment {
    pub author: String,
    pub timestamp: Option<Timestamp>,
    pub body: String,
}

/// A ticket as held in memory.
#[derive(Debug, Clone)]
pub struct Ticket {
    pub id: TicketId,
    pub title: String,
    pub status: Option<String>,
    pub frontmatter: Option<String>,
    pub preamble: String,
    pub comments: Vec<Comment>,
    pub is_closed: bool,
}

pub struct CommentView {
    pub author: Seq<char>,
    pub timestamp: Option<Timestamp>,
    pub body: Seq<char>,
}

pub struct TicketView {
    pub prefix: Seq<char>,
    pub number: u32,
    pub title: Seq<char>,
    pub status: Option<Seq<char>>,
    pub frontmatter: Option<Seq<char>>,
    pub preamble: Seq<char>,
    pub comments: Seq<CommentView>,
    pub is_closed: bool,
}

pub open spec fn opt_view(o: Option<String>) -> Option<Seq<char>> {
    match o {
        Some(s) => Some(s@),
        None => None,
    }
}

impl View for Comment {
    type V = CommentView;

    open spec fn view(&self) -> CommentView {
        CommentView { author: self.author@, timestamp: self.timestamp, body: self.body@ }
    }
}

pub open spec fn comment_views(cs: Seq<Comment>) -> Seq<CommentView> {
    cs.map_values(|c: Comment| c@)
}

impl View for Ticket {
    type V = TicketView;

    open spec fn view(&self) -> TicketView {
        TicketView {
            prefix: self.id.prefix@,
            number: self.id.number,
            title: self.title@,
            status: opt_view(self.status),
            frontmatter: opt_view(self.frontmatter),
            preamble: self.preamble@,
            comments: comment_views(self.comments@),
            is_closed: self.is_closed,
        }
    }
}

impl TicketId {
    /// A copy of the id.
    pub fn duplicate(&self) -> (r: TicketId)
        ensures
            r.prefix@ == self.prefix@,
            r.number == self.number,
    {
        TicketId { prefix: self.prefix.clone(), number: self.number }
    }
}

impl Comment {
    /// A copy of the comment.
    pub fn duplicate(&self) -> (r: Comment)
        ensures
            r@ == self@,
    {
        Comment { author: self.author.clone(), timestamp: self.timestamp, body: self.body.clone() }
    }
}

pub fn duplicate_text(o: &Option<String>) -> (r: Option<String>)
    ensures
        opt_view(r) == opt_view(*o),
{
    match o {
        Some(s) => Some(s.clone()),
        None => None,
    }
}

/// Copies of the comments.
pub fn duplicate_comments(cs: &Vec<Comment>) -> (r: Vec<Comment>)
    ensures
        comment_views(r@) == comment_views(cs@),
        r@.len() == cs@.len(),
        forall|i: int| 0 <= i < r@.len() ==> (#[trigger] r@[i]).timestamp == cs@[i].timestamp,
{
    let mut out: Vec<Comment> = Vec::new();
    let mut i: usize = 0;
    while i < cs.len()
        invariant
            i <= cs.len(),
            comment_views(out@) == comment_views(cs@).take(i as int),
            out@.len() == i,
            forall|k: int| 0 <= k < i ==> (#[trigger] out@[k]).timestamp == cs@[k].timestamp,
        decreases cs.len() - i,
    {
        let c = cs[i].duplicate();
        let ghost before = out@;
        out.push(c);
        assert(comment_views(out@) =~= comment_views(cs@).take(i + 1)) by {
            assert(comment_views(out@) =~= comment_views(before).push(c@));
        }
        i = i + 1;
    }
    assert(comment_views(cs@).take(cs.len() as int) =~= comment_views(cs@));
    out
}

impl Ticket {
    /// A copy of the ticket.
    pub fn duplicate(&self) -> (r: Ticket)
        ensures
            r@ == self@,
            self.times_wf() ==> r.times_wf(),
    {
        let comments = duplicate_comments(&self.comments);
        assert(self.times_wf() ==> forall|i: int|
            0 <= i < comments@.len() ==> ((#[trigger] comments@[i]).timestamp matches Some(t) ==> t.wf())) by {
            if self.times_wf() {
                assert forall|i: int| 0 <= i < comments@.len() implies ((#[trigger] comments@[i]).timestamp matches Some(
                    t,
                ) ==> t.wf()) by {
                    assert(comments@[i].timestamp == self.comments@[i].timestamp);
                }
            }
        }
        Ticket {
            id: self.id.duplicate(),
            title: self.title.clone(),
            status: duplicate_text(&self.status),
            frontmatter: duplicate_text(&self.frontmatter),
            preamble: self.preamble.clone(),
            comments,
            is_closed: self.is_closed,
        }
    }
}

// ---------------------------------------------------------------------------
// Canonical form
// ---------------------------------------------------------------------------
pub open spec fn lit_dashes() -> Seq<char> {
    seq!['-', '-', '-']
}

/// The frontmatter block: `---`, the frontmatter, a line break unless it is
/// empty or already ends in one, and `---`.
pub open spec fn frontmatter_block(fm: Option<Seq<char>>) -> Seq<char> {
    match fm {
        None => seq![],
        Some(f) => lit_dashes() + nl() + f + (if f.len() > 0 && f.last() != '\n' {
            nl()
        } else {
            seq![]
        }) + lit_dashes() + nl(),
    }
}

/// `# ID` or `# ID Title`.
pub open spec fn heading_line(prefix: Seq<char>, number: u32, title: Seq<char>) -> Seq<char> {
    if title.len() == 0 {
        seq!['#', ' '] + id_text(prefix, number)
    } else {
        seq!['#', ' '] + id_text(prefix, number) + seq![' '] + title
    }
}

pub open spec fn status_prefix() -> Seq<char> {
    seq!['*', ' ', 'S', 't', 'a', 't', 'u', 's', ':', ' ']
}

/// `## Author (YYYY-MM-DD HH:MM)` or `## Author`.
pub open spec fn comment_header_line(author: Seq<char>, ts: Option<Timestamp>) -> Seq<char> {
    match ts {
        Some(t) => seq!['#', '#', ' '] + author + seq![' ', '('] + minute_text(t) + seq![')'],
        None => seq!['#', '#', ' '] + author,
    }
}

/// A comment: a blank line, its header, and its body when it has one.
pub open spec fn comment_text(c: CommentView) -> Seq<char> {
    nl() + comment_header_line(c.author, c.timestamp) + nl() + (if c.body.len() == 0 {
        seq![]
    } else {
        c.body + nl()
    })
}

pub open spec fn comments_text(cs: Seq<CommentView>) -> Seq<char>
    decreases cs.len(),
{
    if cs.len() == 0 {
        seq![]
    } else {
        comments_text(cs.drop_last()) + comment_text(cs.last())
    }
}

/// Everything but the frontmatter: heading, status (the default where the
/// ticket has none), preamble after a blank line, comments.
pub open spec fn canonical_body(t: TicketView, default_status: Seq<char>) -> Seq<char> {
    heading_line(t.prefix, t.number, t.title) + nl() + status_prefix() + (match t.status {
        Some(s) => s,
        None => default_status,
    }) + nl() + (if t.preamble.len() == 0 {
        seq![]
    } else {
        nl() + t.preamble + nl()
    }) + comments_text(t.comments)
}

/// The canonical file text of a ticket.
pub open spec fn canonical(t: TicketView, default_status: Seq<char>) -> Seq<char> {
    frontmatter_block(t.frontmatter) + canonical_body(t, default_status)
}

fn push_comment(out: &mut Vec<char>, c: &Comment)
    requires
        c.timestamp matches Some(t) ==> t.wf(),
    ensures
        final(out)@ == old(out)@ + comment_text(c@),
{
    let ghost before = out@;
    out.push('\n');
    out.push('#');
    out.push('#');
    out.push(' ');
    let author = chars_of(c.author.as_str());
    push_all(out, &author);
    match &c.timestamp {
        Some(t) => {
            out.push(' ');
            out.push('(');
            let ts = format_minute_text(t);
            let tc = chars_of(ts.as_str());
            push_all(out, &tc);
            out.push(')');
        },
        None => {},
    }
    out.push('\n');
    let ghost mid = out@;
    assert(mid =~= before + nl() + comment_header_line(c@.author, c@.timestamp) + nl());
    let body = chars_of(c.body.as_str());
    if body.len() > 0 {
        push_all(out, &body);
        out.push('\n');
        assert(out@ =~= mid + (c@.body + nl()));
    } else {
        assert(out@ =~= mid + Seq::<char>::empty());
    }
}

impl Ticket {
    /// Every comment time is a real calendar minute.
    pub open spec fn times_wf(&self) -> bool {
        forall|i: int|
            0 <= i < self.comments@.len() ==> ((#[trigger] self.comments@[i]).timestamp matches Some(
                t,
            ) ==> t.wf())
    }

    fn push_heading(&self, out: &mut Vec<char>)
        ensures
            final(out)@ == old(out)@ + heading_line(self@.prefix, self@.number, self@.title) + nl(),
    {
        let ghost start = out@;
        out.push('#');
        out.push(' ');
        let idt = self.id.text_chars();
        push_all(out, &idt);
        let title = chars_of(self.title.as_str());
        if title.len() > 0 {
            out.push(' ');
            push_all(out, &title);
        }
        out.push('\n');
        assert(out@ =~= start + heading_line(self@.prefix, self@.number, self@.title) + nl());
    }

    fn push_status_preamble(&self, out: &mut Vec<char>, default_status: &str)
        ensures
            final(out)@ == old(out)@ + status_prefix() + (match self@.status {
                Some(s) => s,
                None => default_status@,
            }) + nl() + (if self@.preamble.len() == 0 {
                seq![]
            } else {
                nl() + self@.preamble + nl()
            }),
    {
        let ghost start = out@;
        let sp = vec!['*', ' ', 'S', 't', 'a', 't', 'u', 's', ':', ' '];
        push_all(out, &sp);
        let status = match &self.status {
            Some(s) => chars_of(s.as_str()),
            None => chars_of(default_status),
        };
        push_all(out, &status);
        out.push('\n');
        let ghost mid = out@;
        assert(mid =~= start + status_prefix() + status@ + nl());
        let pre = chars_of(self.preamble.as_str());
        if pre.len() > 0 {
            out.push('\n');
            push_all(out, &pre);
            out.push('\n');
            assert(out@ =~= mid + (nl() + self@.preamble + nl()));
        } else {
            assert(out@ =~= mid + Seq::<char>::empty());
        }
    }

    fn push_body(&self, out: &mut Vec<char>, default_status: &str)
        requires
            self.times_wf(),
        ensures
            final(out)@ == old(out)@ + canonical_body(self@, default_status@),
    {
        let ghost start = out@;
        self.push_heading(out);
        self.push_status_preamble(out, default_status);
        let ghost after_pre = out@;
        let mut i: usize = 0;
        assert(comment_views(self.comments@).take(0) =~= Seq::<CommentView>::empty());
        while i < self.comments.len()
            invariant
                i <= self.comments.len(),
                self.times_wf(),
                out@ == after_pre + comments_text(comment_views(self.comments@).take(i as int)),
            decreases self.comments.len() - i,
        {
            let ghost cs = comment_views(self.comments@).take(i + 1);
            assert(cs.drop_last() =~= comment_views(self.comments@).take(i as int));
            assert(cs.last() == self.comments@[i as int]@);
            assert(self.comments@[i as int].timestamp matches Some(t) ==> t.wf());
            push_comment(out, &self.comments[i]);
            i = i + 1;
        }
        assert(comment_views(self.comments@).take(self.comments.len() as int) =~= comment_views(
            self.comments@,
        ));
        assert(out@ =~= start + canonical_body(self@, default_status@));
    }

    /// The canonical file text: frontmatter block, heading, status, preamble, comments.
    pub fn to_canonical(&self, default_status: &str) -> (r: String)
        requires
            self.times_wf(),
        ensures
            r@ == canonical(self@, default_status@),
    {
        let mut out: Vec<char> = Vec::new();
        match &self.frontmatter {
            Some(fm) => {
                let f = chars_of(fm.as_str());
                out.push('-');
                out.push('-');
                out.push('-');
                out.push('\n');
                push_all(&mut out, &f);
                if f.len() > 0 && f[f.len() - 1] != '\n' {
                    out.push('\n');
                }
                out.push('-');
                out.push('-');
                out.push('-');
                out.push('\n');
                assert(out@ =~= frontmatter_block(self@.frontmatter));
            },
            None => {
                assert(out@ =~= frontmatter_block(self@.frontmatter));
            },
        }
        self.push_body(&mut out, default_status);
        string_from_chars(&out)
    }

    /// The canonical text without the frontmatter block: what the content hash covers.
    pub fn content_for_hash(&self, default_status: &str) -> (r: String)
        requires
            self.times_wf(),
        ensures
            r@ == canonical_body(self@, default_status@),
    {
        let mut out: Vec<char> = Vec::new();
        self.push_body(&mut out, default_status);
        assert(out@ =~= canonical_body(self@, default_status@));
        string_from_chars(&out)
    }
}

} // verus!
