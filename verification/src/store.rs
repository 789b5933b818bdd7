//! The rules of the ticket directory that do not touch the file system: file
//! names of tickets, which file holds which ticket, the next free number, and
//! the order tickets are listed in.
use vstd::prelude::*;
use vstd::multiset::Multiset;
use crate::text::{chars_of, chars_eq, string_from_chars, push_all, slice_chars};
use crate::ticket::{Ticket, TicketId, id_text};
use crate::parser::{filename_parts, parse_filename, updig_end, nd_end, is_upper_or_digit};
use crate::text::{decimal, lemma_decimal_digits, is_nd, is_ascii_digit, has_no_nl, trim, lemma_trim_trimmed, lemma_find_char};
use crate::ticket::valid_prefix;

verus! {

/// Characters that file systems refuse in names become `-`.
pub open spec fn safe_char(c: char) -> char {
    if c == '/' || c == '\\' || c == ':' || c == '*' || c == '?' || c == '"' || c == '<' || c == '>'
        || c == '|' {
        '-'
    } else {
        c
    }
}

pub open spec fn sanitized(s: Seq<char>) -> Seq<char> {
    s.map_values(|c: char| safe_char(c))
}

/// Replaces `/ \ : * ? " < > |` with `-`.
pub fn sanitize_filename(title: &str) -> (r: String)
    ensures
        r@ == sanitized(title@),
{
    let cs = chars_of(title);
    let mut out: Vec<char> = Vec::new();
    let mut i: usize = 0;
    while i < cs.len()
        invariant
            i <= cs.len(),
            out@ == sanitized(cs@.take(i as int)),
        decreases cs.len() - i,
    {
        let c = cs[i];
        let d = if c == '/' || c == '\\' || c == ':' || c == '*' || c == '?' || c == '"' || c == '<'
            || c == '>' || c == '|' {
            '-'
        } else {
            c
        };
        out.push(d);
        i = i + 1;
        assert(out@ =~= sanitized(cs@.take(i as int)));
    }
    assert(cs@.take(cs.len() as int) =~= cs@);
    string_from_chars(&out)
}

pub open spec fn md_ext() -> Seq<char> {
    seq!['.', 'm', 'd']
}

/// `ID.md`, or `ID Title.md` with the title made safe.
pub open spec fn ticket_file_name_of(prefix: Seq<char>, number: u32, title: Seq<char>) -> Seq<char> {
    if sanitized(title).len() == 0 {
        id_text(prefix, number) + md_ext()
    } else {
        id_text(prefix, number) + seq![' '] + sanitized(title) + md_ext()
    }
}

/// The file name a ticket is written under (in the open or the done directory).
pub fn ticket_file_name(ticket: &Ticket) -> (r: String)
    ensures
        r@ == ticket_file_name_of(ticket.id.prefix@, ticket.id.number, ticket.title@),
{
    let safe = sanitize_filename(ticket.title.as_str());
    let sc = chars_of(safe.as_str());
    let mut out = ticket.id.text_chars();
    if sc.len() > 0 {
        out.push(' ');
        push_all(&mut out, &sc);
    }
    out.push('.');
    out.push('m');
    out.push('d');
    assert(out@ =~= ticket_file_name_of(ticket.id.prefix@, ticket.id.number, ticket.title@));
    string_from_chars(&out)
}

// ---------------------------------------------------------------------------
// Files of the ticket directory
// ---------------------------------------------------------------------------
/// The stem of a `.md` file name (`Path::file_stem` where `Path::extension` is
/// `md`): the name without `.md`, which must leave something.
pub open spec fn md_stem_of(name: Seq<char>) -> Option<Seq<char>> {
    if name.len() > 3 && name.skip(name.len() - 3) == md_ext() {
        Some(name.take(name.len() - 3))
    } else {
        None
    }
}

/// The ticket a file name names: a `.md` file whose stem reads as `ID Title`.
pub open spec fn named_ticket(name: Seq<char>) -> Option<(Seq<char>, u32, Seq<char>)> {
    match md_stem_of(name) {
        Some(stem) => filename_parts(stem),
        None => None,
    }
}

/// The file name names the ticket with this id.
pub open spec fn names_ticket(name: Seq<char>, prefix: Seq<char>, number: u32) -> bool {
    named_ticket(name) matches Some((p, n, t)) && p == prefix && n == number
}

/// The stem of a `.md` file name.
pub fn md_stem(name: &str) -> (r: Option<String>)
    ensures
        match md_stem_of(name@) {
            Some(s) => r matches Some(x) && x@ == s,
            None => r is None,
        },
{
    let cs = chars_of(name);
    let n = cs.len();
    if n > 3 && cs[n - 3] == '.' && cs[n - 2] == 'm' && cs[n - 1] == 'd' {
        assert(cs@.skip(n - 3) =~= md_ext());
        let stem = slice_chars(&cs, 0, n - 3);
        assert(stem@ =~= cs@.take(n - 3));
        Some(string_from_chars(&stem))
    } else {
        assert(n > 3 ==> cs@.skip(n - 3)[0] == cs@[n - 3] && cs@.skip(n - 3)[1] == cs@[n - 2]
            && cs@.skip(n - 3)[2] == cs@[n - 1]);
        None
    }
}

/// The ticket id and title a file name carries, for a `.md` file named `ID Title.md`.
pub fn ticket_file(name: &str) -> (r: Option<(TicketId, String)>)
    ensures
        match named_ticket(name@) {
            Some((p, n, t)) => r matches Some((id, title)) && id.prefix@ == p && id.number == n && title@ == t,
            None => r is None,
        },
{
    match md_stem(name) {
        Some(stem) => parse_filename(stem.as_str()),
        None => None,
    }
}

/// Whether the file name is that of ticket `id`.
pub fn file_names_ticket(name: &str, id: &TicketId) -> (r: bool)
    ensures
        r == names_ticket(name@, id.prefix@, id.number),
{
    match ticket_file(name) {
        Some((fid, _)) => fid.same(id),
        None => false,
    }
}

/// The first of the file names that names ticket `id`.
pub fn find_file(names: &Vec<String>, id: &TicketId) -> (r: Option<usize>)
    ensures
        r matches Some(i) ==> i < names@.len() && names_ticket(names@[i as int]@, id.prefix@, id.number)
            && forall|k: int| 0 <= k < i ==> !names_ticket(#[trigger] names@[k]@, id.prefix@, id.number),
        r is None ==> forall|k: int|
            0 <= k < names@.len() ==> !names_ticket(#[trigger] names@[k]@, id.prefix@, id.number),
{
    let mut i: usize = 0;
    while i < names.len()
        invariant
            i <= names.len(),
            forall|k: int| 0 <= k < i ==> !names_ticket(#[trigger] names@[k]@, id.prefix@, id.number),
        decreases names.len() - i,
    {
        if file_names_ticket(names[i].as_str(), id) {
            return Some(i);
        }
        i = i + 1;
    }
    None
}

pub open spec fn name_views(names: Seq<String>) -> Seq<Seq<char>> {
    names.map_values(|s: String| s@)
}

/// The number of the ticket a file name names, when its prefix is `prefix`; else 0.
pub open spec fn number_with_prefix(name: Seq<char>, prefix: Seq<char>) -> nat {
    match named_ticket(name) {
        Some((p, n, _)) => if p == prefix {
            n as nat
        } else {
            0
        },
        None => 0,
    }
}

/// The largest number of a ticket with `prefix` among the file names, 0 if none.
pub open spec fn max_number_of(names: Seq<Seq<char>>, prefix: Seq<char>) -> nat
    decreases names.len(),
{
    if names.len() == 0 {
        0
    } else {
        let m = max_number_of(names.drop_last(), prefix);
        let n = number_with_prefix(names.last(), prefix);
        if n > m {
            n
        } else {
            m
        }
    }
}

/// The maximum bounds every number with the prefix and is one of them (or 0).
pub proof fn lemma_max_number(names: Seq<Seq<char>>, prefix: Seq<char>)
    ensures
        max_number_of(names, prefix) <= u32::MAX,
        forall|k: int|
            0 <= k < names.len() ==> number_with_prefix(#[trigger] names[k], prefix) <= max_number_of(
                names,
                prefix,
            ),
        max_number_of(names, prefix) == 0 || exists|k: int|
            0 <= k < names.len() && number_with_prefix(#[trigger] names[k], prefix) == max_number_of(
                names,
                prefix,
            ),
    decreases names.len(),
{
    if names.len() > 0 {
        let d = names.drop_last();
        lemma_max_number(d, prefix);
        assert forall|k: int| 0 <= k < names.len() implies number_with_prefix(
            #[trigger] names[k],
            prefix,
        ) <= max_number_of(names, prefix) by {
            if k < names.len() - 1 {
                assert(names[k] == d[k]);
            }
        }
        if max_number_of(names, prefix) != 0 {
            if number_with_prefix(names.last(), prefix) > max_number_of(d, prefix) {
                assert(number_with_prefix(names[names.len() - 1], prefix) == max_number_of(names, prefix));
            } else {
                let k = choose|k: int|
                    0 <= k < d.len() && number_with_prefix(#[trigger] d[k], prefix) == max_number_of(
                        d,
                        prefix,
                    );
                assert(names[k] == d[k]);
            }
        }
    }
}

/// The largest number used with `prefix` among the file names (0 if none).
pub fn max_number(names: &Vec<String>, prefix: &str) -> (r: u32)
    ensures
        r as nat == max_number_of(name_views(names@), prefix@),
{
    let pc = chars_of(prefix);
    let mut m: u32 = 0;
    let mut i: usize = 0;
    while i < names.len()
        invariant
            i <= names.len(),
            pc@ == prefix@,
            m as nat == max_number_of(name_views(names@).take(i as int), prefix@),
        decreases names.len() - i,
    {
        let ghost t = name_views(names@).take(i + 1);
        assert(t.drop_last() =~= name_views(names@).take(i as int));
        assert(t.last() == names@[i as int]@);
        let n = match ticket_file(names[i].as_str()) {
            Some((id, _)) => {
                let idp = chars_of(id.prefix.as_str());
                if chars_eq(&idp, &pc) {
                    id.number
                } else {
                    0
                }
            },
            None => 0,
        };
        if n > m {
            m = n;
        }
        i = i + 1;
    }
    assert(name_views(names@).take(names.len() as int) =~= name_views(names@));
    m
}

/// `Path::join` of a relative name onto a directory: a `/` between them unless
/// the directory is empty or already ends in `/`.
pub open spec fn path_join(dir: Seq<char>, name: Seq<char>) -> Seq<char> {
    if dir.len() == 0 || dir.last() == '/' {
        dir + name
    } else {
        dir + seq!['/'] + name
    }
}

pub fn join_path(dir: &str, name: &str) -> (r: String)
    ensures
        r@ == path_join(dir@, name@),
{
    let mut out = chars_of(dir);
    let n = chars_of(name);
    if out.len() > 0 && out[out.len() - 1] != '/' {
        out.push('/');
    }
    push_all(&mut out, &n);
    assert(out@ =~= path_join(dir@, name@));
    string_from_chars(&out)
}

pub open spec fn done_name() -> Seq<char> {
    seq!['d', 'o', 'n', 'e']
}

/// Errors of the ticket directory.
#[derive(Debug)]
pub enum StoreError {
    /// No file holds this ticket (its id as text).
    TicketNotFound(String),
    /// No file of this ticket was found.
    TicketFileNotFound(String),
    /// The ticket is not among the open tickets.
    NotInOpen(String),
    /// The ticket is not in `done/`.
    NotInDone(String),
}

impl StoreError {
    /// The error as a sentence.
    pub fn message(&self) -> (r: String)
        ensures
            r@ == store_error_text(*self),
    {
        let (head, id, tail): (&str, &String, &str) = match self {
            StoreError::TicketNotFound(i) => ("Ticket ", i, " not found"),
            StoreError::TicketFileNotFound(i) => ("Ticket file for ", i, " not found"),
            StoreError::NotInOpen(i) => ("Ticket ", i, " not found in open tickets"),
            StoreError::NotInDone(i) => ("Ticket ", i, " not found in done/"),
        };
        let mut out = chars_of(head);
        let a = chars_of(id.as_str());
        let b = chars_of(tail);
        push_all(&mut out, &a);
        push_all(&mut out, &b);
        proof {
            reveal_strlit("Ticket ");
            reveal_strlit(" not found");
            reveal_strlit("Ticket file for ");
            reveal_strlit(" not found in open tickets");
            reveal_strlit(" not found in done/");
        }
        assert(out@ =~= store_error_text(*self));
        string_from_chars(&out)
    }
}

pub open spec fn store_error_text(e: StoreError) -> Seq<char> {
    match e {
        StoreError::TicketNotFound(i) => "Ticket "@ + i@ + " not found"@,
        StoreError::TicketFileNotFound(i) => "Ticket file for "@ + i@ + " not found"@,
        StoreError::NotInOpen(i) => "Ticket "@ + i@ + " not found in open tickets"@,
        StoreError::NotInDone(i) => "Ticket "@ + i@ + " not found in done/"@,
    }
}

/// A directory of ticket files, with closed tickets in its `done` subdirectory.
/// The file system is read by the caller: methods that look for files take
/// the names of the regular files of each directory, in the order listed.
#[derive(Debug)]
pub struct TicketStore {
    pub root: String,
    pub done_dir: String,
}

/// Where a ticket's file was found: in `done/` or not, and its index in that listing.
#[derive(Debug, Clone, Copy, PartialEq, Eq, Structural)]
pub struct Located {
    pub closed: bool,
    pub index: usize,
}

impl TicketStore {
    /// The store of a notes directory; closed tickets live in its `done` subdirectory.
    pub fn new(notes_dir: &str) -> (r: TicketStore)
        ensures
            r.root@ == notes_dir@,
            r.done_dir@ == path_join(notes_dir@, done_name()),
    {
        let done = "done";
        proof {
            reveal_strlit("done");
        }
        assert(done@ =~= done_name());
        TicketStore { root: notes_dir.to_string(), done_dir: join_path(notes_dir, done) }
    }

    /// The path a ticket is written to: in `done/` when closed, named
    /// `ID Title.md` (`ID.md` without a title) with the title made safe.
    pub fn ticket_path(&self, ticket: &Ticket) -> (r: String)
        ensures
            r@ == path_join(
                if ticket.is_closed {
                    self.done_dir@
                } else {
                    self.root@
                },
                ticket_file_name_of(ticket.id.prefix@, ticket.id.number, ticket.title@),
            ),
    {
        let name = ticket_file_name(ticket);
        if ticket.is_closed {
            join_path(self.done_dir.as_str(), name.as_str())
        } else {
            join_path(self.root.as_str(), name.as_str())
        }
    }

    /// The ticket's file: the first open one that names it, else the first in `done/`.
    pub fn locate(&self, id: &TicketId, open_names: &Vec<String>, done_names: &Vec<String>) -> (r: Option<Located>)
        ensures
            match r {
                Some(l) => if l.closed {
                    &&& l.index < done_names@.len()
                    &&& names_ticket(done_names@[l.index as int]@, id.prefix@, id.number)
                    &&& forall|k: int| 0 <= k < open_names@.len() ==> !names_ticket(#[trigger] open_names@[k]@, id.prefix@, id.number)
                    &&& forall|k: int| 0 <= k < l.index ==> !names_ticket(#[trigger] done_names@[k]@, id.prefix@, id.number)
                } else {
                    &&& l.index < open_names@.len()
                    &&& names_ticket(open_names@[l.index as int]@, id.prefix@, id.number)
                    &&& forall|k: int| 0 <= k < l.index ==> !names_ticket(#[trigger] open_names@[k]@, id.prefix@, id.number)
                },
                None => {
                    &&& forall|k: int| 0 <= k < open_names@.len() ==> !names_ticket(#[trigger] open_names@[k]@, id.prefix@, id.number)
                    &&& forall|k: int| 0 <= k < done_names@.len() ==> !names_ticket(#[trigger] done_names@[k]@, id.prefix@, id.number)
                },
            },
    {
        match find_file(open_names, id) {
            Some(i) => Some(Located { closed: false, index: i }),
            None => match find_file(done_names, id) {
                Some(i) => Some(Located { closed: true, index: i }),
                None => None,
            },
        }
    }

    /// The path of the ticket's file (see `locate`); an error when there is none.
    pub fn find_ticket_file(&self, id: &TicketId, open_names: &Vec<String>, done_names: &Vec<String>) -> (r: Result<
        String,
        StoreError,
    >)
        ensures
            match r {
                Ok(p) => exists|l: Located| {
                    &&& #[trigger] located_at(l, id, open_names@, done_names@)
                    &&& p@ == (if l.closed {
                        path_join(self.done_dir@, done_names@[l.index as int]@)
                    } else {
                        path_join(self.root@, open_names@[l.index as int]@)
                    })
                },
                Err(e) => {
                    &&& (e matches StoreError::TicketFileNotFound(t) && t@ == id_text(id.prefix@, id.number))
                    &&& forall|k: int| 0 <= k < open_names@.len() ==> !names_ticket(#[trigger] open_names@[k]@, id.prefix@, id.number)
                    &&& forall|k: int| 0 <= k < done_names@.len() ==> !names_ticket(#[trigger] done_names@[k]@, id.prefix@, id.number)
                },
            },
    {
        match self.locate(id, open_names, done_names) {
            Some(l) => {
                assert(located_at(l, id, open_names@, done_names@));
                if l.closed {
                    Ok(join_path(self.done_dir.as_str(), done_names[l.index].as_str()))
                } else {
                    Ok(join_path(self.root.as_str(), open_names[l.index].as_str()))
                }
            },
            None => Err(StoreError::TicketFileNotFound(id.to_string())),
        }
    }

    /// One more than the largest number used with `prefix` by the files of both
    /// directories (1 if none); the largest must leave room.
    pub fn next_number(&self, prefix: &str, open_names: &Vec<String>, done_names: &Vec<String>) -> (r: u32)
        requires
            max_number_of(name_views(open_names@), prefix@) < u32::MAX,
            max_number_of(name_views(done_names@), prefix@) < u32::MAX,
        ensures
            r as nat == 1 + (if max_number_of(name_views(open_names@), prefix@) > max_number_of(
                name_views(done_names@),
                prefix@,
            ) {
                max_number_of(name_views(open_names@), prefix@)
            } else {
                max_number_of(name_views(done_names@), prefix@)
            }),
    {
        let a = max_number(open_names, prefix);
        let b = max_number(done_names, prefix);
        if a > b {
            a + 1
        } else {
            b + 1
        }
    }
}

/// `l` is what `locate` finds for `id`.
pub open spec fn located_at(l: Located, id: &TicketId, open_names: Seq<String>, done_names: Seq<String>) -> bool {
    if l.closed {
        &&& l.index < done_names.len()
        &&& names_ticket(done_names[l.index as int]@, id.prefix@, id.number)
        &&& forall|k: int| 0 <= k < open_names.len() ==> !names_ticket(#[trigger] open_names[k]@, id.prefix@, id.number)
        &&& forall|k: int| 0 <= k < l.index ==> !names_ticket(#[trigger] done_names[k]@, id.prefix@, id.number)
    } else {
        &&& l.index < open_names.len()
        &&& names_ticket(open_names[l.index as int]@, id.prefix@, id.number)
        &&& forall|k: int| 0 <= k < l.index ==> !names_ticket(#[trigger] open_names[k]@, id.prefix@, id.number)
    }
}

// ---------------------------------------------------------------------------
// Listing order
// ---------------------------------------------------------------------------
/// `a` comes before `b` as strings compare (character by character).
pub open spec fn chars_lt(a: Seq<char>, b: Seq<char>) -> bool
    decreases a.len(),
{
    if a.len() == 0 {
        b.len() > 0
    } else if b.len() == 0 {
        false
    } else if a[0] != b[0] {
        (a[0] as u32) < (b[0] as u32)
    } else {
        chars_lt(a.drop_first(), b.drop_first())
    }
}

/// Tickets are listed by prefix, then number.
pub open spec fn ticket_before(a: Ticket, b: Ticket) -> bool {
    chars_lt(a.id.prefix@, b.id.prefix@) || (a.id.prefix@ == b.id.prefix@ && a.id.number < b.id.number)
}

fn prefix_lt(a: &Vec<char>, b: &Vec<char>) -> (r: bool)
    ensures
        r == chars_lt(a@, b@),
{
    let mut i: usize = 0;
    assert(a@.skip(0) =~= a@ && b@.skip(0) =~= b@);
    while i < a.len() && i < b.len() && a[i] == b[i]
        invariant
            i <= a.len() && i <= b.len(),
            forall|k: int| 0 <= k < i ==> a@[k] == b@[k],
            chars_lt(a@, b@) == chars_lt(a@.skip(i as int), b@.skip(i as int)),
        decreases a.len() - i,
    {
        assert(a@.skip(i as int).drop_first() =~= a@.skip(i + 1));
        assert(b@.skip(i as int).drop_first() =~= b@.skip(i + 1));
        i = i + 1;
    }
    if i == a.len() {
        i < b.len()
    } else if i == b.len() {
        false
    } else {
        (a[i] as u32) < (b[i] as u32)
    }
}

fn before(a: &Ticket, b: &Ticket) -> (r: bool)
    ensures
        r == ticket_before(*a, *b),
{
    let pa = chars_of(a.id.prefix.as_str());
    let pb = chars_of(b.id.prefix.as_str());
    prefix_lt(&pa, &pb) || (chars_eq(&pa, &pb) && a.id.number < b.id.number)
}

/// Sorted: no ticket comes before one listed earlier.
pub open spec fn sorted_tickets(s: Seq<Ticket>) -> bool {
    forall|i: int, j: int| 0 <= i < j < s.len() ==> !ticket_before(#[trigger] s[j], #[trigger] s[i])
}

pub proof fn lemma_chars_lt_irreflexive(a: Seq<char>)
    ensures
        !chars_lt(a, a),
    decreases a.len(),
{
    if a.len() > 0 {
        lemma_chars_lt_irreflexive(a.drop_first());
    }
}

pub proof fn lemma_chars_lt_asymmetric(a: Seq<char>, b: Seq<char>)
    ensures
        chars_lt(a, b) ==> !chars_lt(b, a),
    decreases a.len(),
{
    if a.len() > 0 && b.len() > 0 && a[0] == b[0] {
        lemma_chars_lt_asymmetric(a.drop_first(), b.drop_first());
    }
}

pub proof fn lemma_chars_lt_transitive(a: Seq<char>, b: Seq<char>, c: Seq<char>)
    ensures
        chars_lt(a, b) && chars_lt(b, c) ==> chars_lt(a, c),
    decreases a.len(),
{
    if a.len() > 0 && b.len() > 0 && c.len() > 0 {
        lemma_chars_lt_transitive(a.drop_first(), b.drop_first(), c.drop_first());
    }
}

/// The listing order is a strict order: never both ways, and transitive.
pub proof fn lemma_ticket_order(a: Ticket, b: Ticket, c: Ticket)
    ensures
        ticket_before(a, b) ==> !ticket_before(b, a),
        ticket_before(a, b) && ticket_before(b, c) ==> ticket_before(a, c),
{
    lemma_chars_lt_asymmetric(a.id.prefix@, b.id.prefix@);
    lemma_chars_lt_irreflexive(a.id.prefix@);
    lemma_chars_lt_irreflexive(b.id.prefix@);
    lemma_chars_lt_transitive(a.id.prefix@, b.id.prefix@, c.id.prefix@);
}

/// Holds of the tickets with prefix `p` and number `n`.
pub open spec fn same_rank(p: Seq<char>, n: u32) -> spec_fn(Ticket) -> bool {
    |t: Ticket| t.id.prefix@ == p && t.id.number == n
}

/// The tickets of `s` with prefix `p` and number `n`, in their order in `s`.
pub open spec fn rank_run(s: Seq<Ticket>, p: Seq<char>, n: u32) -> Seq<Ticket> {
    s.filter(same_rank(p, n))
}

proof fn lemma_rank_run_single(x: Ticket, p: Seq<char>, n: u32)
    ensures
        rank_run(seq![x], p, n) == (if same_rank(p, n)(x) { seq![x] } else { Seq::<Ticket>::empty() }),
{
    reveal_with_fuel(Seq::filter, 2);
    assert(seq![x].drop_last() =~= Seq::<Ticket>::empty());
}

proof fn lemma_rank_run_empty(p: Seq<char>, n: u32)
    ensures
        rank_run(Seq::<Ticket>::empty(), p, n) == Seq::<Ticket>::empty(),
{
    reveal(Seq::filter);
}

/// Inserting `x` after every ticket not ranked above it, in a sorted
/// sequence, puts it behind all tickets of its own rank.
proof fn lemma_insert_keeps_runs(out0: Seq<Ticket>, i: int, x: Ticket, rest: Seq<Ticket>, p: Seq<char>, n: u32)
    requires
        sorted_tickets(out0),
        0 <= i <= out0.len(),
        forall|k: int| 0 <= k < i ==> !ticket_before(x, #[trigger] out0[k]),
        i < out0.len() ==> ticket_before(x, out0[i]),
    ensures
        rank_run(out0.insert(i, x), p, n) + rank_run(rest, p, n) == rank_run(out0, p, n) + rank_run(
            seq![x] + rest,
            p,
            n,
        ),
{
    let pred = same_rank(p, n);
    let a = out0.take(i);
    let b = out0.skip(i);
    assert(out0.insert(i, x) =~= a + seq![x] + b);
    assert(out0 =~= a + b);
    Seq::filter_distributes_over_add(a + seq![x], b, pred);
    Seq::filter_distributes_over_add(a, seq![x], pred);
    Seq::filter_distributes_over_add(a, b, pred);
    rest.lemma_filter_prepend(x, pred);
    lemma_rank_run_single(x, p, n);
    if pred(x) {
        assert forall|k: int| 0 <= k < b.len() implies !pred(#[trigger] b[k]) by {
            assert(b[k] == out0[i + k]);
            lemma_ticket_order(x, out0[i], out0[i + k]);
            lemma_chars_lt_irreflexive(x.id.prefix@);
            if pred(b[k]) {
                if k > 0 {
                    assert(!ticket_before(out0[i + k], out0[i]));
                }
            }
        }
        assert(b.all(|t: Ticket| !pred(t)));
        b.lemma_all_neg_filter_empty(pred);
        assert(b.filter(pred) =~= Seq::<Ticket>::empty());
        assert(rank_run(out0.insert(i, x), p, n) =~= a.filter(pred) + seq![x]);
        assert(rank_run(out0, p, n) =~= a.filter(pred));
        assert(rank_run(seq![x] + rest, p, n) =~= seq![x] + rest.filter(pred));
        assert(a.filter(pred) + seq![x] + rest.filter(pred) =~= a.filter(pred) + (seq![x] + rest.filter(pred)));
    } else {
        assert(rank_run(out0.insert(i, x), p, n) =~= a.filter(pred) + b.filter(pred));
        assert(rank_run(seq![x] + rest, p, n) =~= rest.filter(pred));
    }
}

/// Orders tickets by prefix, then number; tickets of equal rank keep their
/// order (an insertion sort that inserts after equals).
pub fn sort_tickets(tickets: Vec<Ticket>) -> (r: Vec<Ticket>)
    ensures
        r@.to_multiset() == tickets@.to_multiset(),
        sorted_tickets(r@),
        forall|p: Seq<char>, n: u32| #[trigger] rank_run(r@, p, n) == rank_run(tickets@, p, n),
{
    broadcast use vstd::multiset::group_multiset_axioms, vstd::multiset::group_multiset_properties,
        vstd::seq_lib::group_seq_properties, vstd::seq_lib::to_multiset_insert;

    let ghost orig = tickets@;
    let mut rest = tickets;
    let mut out: Vec<Ticket> = Vec::new();
    assert(out@.to_multiset().len() == 0);
    assert(out@.to_multiset() =~= Multiset::empty());
    assert forall|pp: Seq<char>, nn: u32| rank_run(out@, pp, nn) + rank_run(rest@, pp, nn) == #[trigger] rank_run(
        orig,
        pp,
        nn,
    ) by {
        lemma_rank_run_empty(pp, nn);
        assert(out@ =~= Seq::<Ticket>::empty());
        assert(Seq::<Ticket>::empty() + rank_run(orig, pp, nn) =~= rank_run(orig, pp, nn));
    }
    while rest.len() > 0
        invariant
            out@.to_multiset().add(rest@.to_multiset()) == orig.to_multiset(),
            sorted_tickets(out@),
            forall|p: Seq<char>, n: u32| rank_run(out@, p, n) + rank_run(rest@, p, n) == #[trigger] rank_run(orig, p, n),
        decreases rest.len(),
    {
        let ghost rest0 = rest@;
        let x = rest.remove(0);
        assert(rest@ == rest0.remove(0));
        let mut p: usize = 0;
        while p < out.len() && !before(&x, &out[p])
            invariant
                p <= out.len(),
                forall|k: int| 0 <= k < p ==> !ticket_before(x, #[trigger] out@[k]),
            decreases out.len() - p,
        {
            p = p + 1;
        }
        let ghost out0 = out@;
        out.insert(p, x);
        assert(out@ == out0.insert(p as int, x));
        proof {
            assert(rest0 =~= seq![x] + rest@);
            assert forall|pp: Seq<char>, nn: u32| rank_run(out@, pp, nn) + rank_run(rest@, pp, nn) == #[trigger] rank_run(
                orig,
                pp,
                nn,
            ) by {
                lemma_insert_keeps_runs(out0, p as int, x, rest@, pp, nn);
            }
        }
        proof {
            assert(rest0[0] == x);
            rest0.to_multiset_ensures();
            assert(rest0.contains(x));
            assert(rest@.to_multiset() =~= rest0.to_multiset().remove(x));
            vstd::seq_lib::to_multiset_insert(out0, p as int, x);
            assert(out@.to_multiset() =~= out0.to_multiset().insert(x));
            assert(rest0.to_multiset().count(x) > 0);
            assert(out@.to_multiset().add(rest@.to_multiset()) =~= orig.to_multiset());
        }
        proof {
            assert forall|i: int, j: int| 0 <= i < j < out@.len() implies !ticket_before(
                #[trigger] out@[j],
                #[trigger] out@[i],
            ) by {
                if j < p {
                    assert(out@[i] == out0[i] && out@[j] == out0[j]);
                } else if j == p {
                    assert(out@[i] == out0[i]);
                } else if i == p {
                    assert(out@[j] == out0[j - 1]);
                    assert(ticket_before(x, out0[p as int]));
                    lemma_ticket_order(x, out0[p as int], out0[j - 1]);
                    lemma_ticket_order(out0[j - 1], x, out0[p as int]);
                    if j - 1 > p {
                        assert(!ticket_before(out0[j - 1], out0[p as int]));
                    }
                } else if i < p {
                    assert(out@[i] == out0[i] && out@[j] == out0[j - 1]);
                } else {
                    assert(out@[i] == out0[i - 1] && out@[j] == out0[j - 1]);
                }
            }
        }
    }
    assert(rest@.to_multiset().len() == 0);
    assert(rest@.to_multiset() =~= Multiset::empty());
    assert(rest@ =~= Seq::<Ticket>::empty());
    assert forall|pp: Seq<char>, nn: u32| #[trigger] rank_run(out@, pp, nn) == rank_run(orig, pp, nn) by {
        lemma_rank_run_empty(pp, nn);
        assert(rank_run(out@, pp, nn) + rank_run(rest@, pp, nn) == rank_run(orig, pp, nn));
        assert(rank_run(out@, pp, nn) + Seq::<Ticket>::empty() =~= rank_run(out@, pp, nn));
    }
    out
}


proof fn lemma_updig_end_at(s: Seq<char>, i: int, e: int)
    requires
        0 <= i <= e <= s.len(),
        forall|k: int| i <= k < e ==> is_upper_or_digit(#[trigger] s[k]),
        e == s.len() || !is_upper_or_digit(s[e]),
    ensures
        updig_end(s, i) == e,
    decreases e - i,
{
    if i < e {
        assert(is_upper_or_digit(s[i]));
        lemma_updig_end_at(s, i + 1, e);
    }
}

proof fn lemma_nd_end_at(s: Seq<char>, i: int, e: int)
    requires
        0 <= i <= e <= s.len(),
        forall|k: int| i <= k < e ==> is_nd(#[trigger] s[k]),
        e == s.len() || !is_nd(s[e]),
    ensures
        nd_end(s, i) == e,
    decreases e - i,
{
    if i < e {
        assert(is_nd(s[i]));
        lemma_nd_end_at(s, i + 1, e);
    }
}

/// A ticket's file name reads back as its id and its made-safe, trimmed
/// title: the file is found again by the id. This holds for every valid
/// prefix, every number and every title without a line break (a name with one
/// is read as no ticket's).
pub proof fn law_file_name_names_ticket(prefix: Seq<char>, number: u32, title: Seq<char>)
    requires
        valid_prefix(prefix),
        has_no_nl(title),
    ensures
        named_ticket(ticket_file_name_of(prefix, number, title)) == Some((prefix, number, trim(sanitized(title)))),
{
    let name = ticket_file_name_of(prefix, number, title);
    let d = decimal(number as nat);
    let st = sanitized(title);
    let idt = id_text(prefix, number);
    let stem = if st.len() == 0 {
        idt
    } else {
        idt + seq![' '] + st
    };
    assert(name =~= stem + md_ext());
    assert(name.skip(name.len() - 3) =~= md_ext());
    assert(name.take(name.len() - 3) =~= stem);
    assert(md_stem_of(name) == Some(stem));
    lemma_decimal_digits(number as nat);
    let p = prefix.len() as int;
    let e = p + 1 + d.len();
    assert forall|k: int| 1 <= k < p implies is_upper_or_digit(#[trigger] stem[k]) by {
        assert(stem[k] == prefix[k]);
    }
    assert(stem[p] == '-');
    lemma_updig_end_at(stem, 1, p);
    assert forall|k: int| p + 1 <= k < e implies is_nd(#[trigger] stem[k]) by {
        assert(stem[k] == d[k - p - 1]);
        assert(is_ascii_digit(d[k - p - 1]));
    }
    if st.len() > 0 {
        assert(stem[e] == ' ');
    }
    lemma_nd_end_at(stem, p + 1, e);
    assert(stem.subrange(p + 1, e) =~= d);
    assert(stem.take(p) =~= prefix);
    let rest = if st.len() > 0 {
        e + 1
    } else {
        e
    };
    assert(stem.skip(rest) =~= st);
    assert forall|k: int| 0 <= k < st.len() implies #[trigger] st[k] != '\n' by {
        assert(title[k] != '\n');
    }
    lemma_find_char(st, '\n', 0);
    assert(d[0] != '+') by {
        assert(is_ascii_digit(d[0]));
    }
    if st.len() == 0 {
        assert(trim(Seq::<char>::empty()) =~= Seq::<char>::empty()) by {
            lemma_trim_trimmed(Seq::<char>::empty());
        }
    }
}

/// The largest number with a prefix counts exactly the files whose ticket
/// prefix equals it: every such file's number is at most the largest, and the
/// largest (when not 0) is the number of such a file. Files of other prefixes,
/// such as `TDX-9` for `TD`, do not count.
pub proof fn law_max_number_counts_exact_prefix(names: Seq<Seq<char>>, prefix: Seq<char>)
    ensures
        forall|k: int|
            0 <= k < names.len() && (#[trigger] named_ticket(names[k])) is Some && named_ticket(names[k]).unwrap().0
                == prefix ==> named_ticket(names[k]).unwrap().1 <= max_number_of(names, prefix),
        max_number_of(names, prefix) > 0 ==> exists|k: int|
            0 <= k < names.len() && (#[trigger] named_ticket(names[k])) is Some && named_ticket(names[k]).unwrap().0
                == prefix && named_ticket(names[k]).unwrap().1 == max_number_of(names, prefix),
    decreases names.len(),
{
    if names.len() > 0 {
        let d = names.drop_last();
        law_max_number_counts_exact_prefix(d, prefix);
        assert forall|k: int|
            0 <= k < names.len() && (#[trigger] named_ticket(names[k])) is Some && named_ticket(names[k]).unwrap().0
                == prefix implies named_ticket(names[k]).unwrap().1 <= max_number_of(names, prefix) by {
            if k < d.len() {
                assert(names[k] == d[k]);
            }
        }
        if max_number_of(names, prefix) > 0 {
            if number_with_prefix(names.last(), prefix) > max_number_of(d, prefix) {
                let k = names.len() - 1;
                assert(named_ticket(names[k]) is Some && named_ticket(names[k]).unwrap().0 == prefix
                    && named_ticket(names[k]).unwrap().1 == max_number_of(names, prefix));
            } else {
                let k = choose|k: int|
                    0 <= k < d.len() && (#[trigger] named_ticket(d[k])) is Some && named_ticket(d[k]).unwrap().0
                        == prefix && named_ticket(d[k]).unwrap().1 == max_number_of(d, prefix);
                assert(names[k] == d[k]);
                assert(named_ticket(names[k]) is Some && named_ticket(names[k]).unwrap().0 == prefix
                    && named_ticket(names[k]).unwrap().1 == max_number_of(names, prefix));
            }
        }
    }
}

/// A made-safe name has the same length and none of `/ \\ : * ? " < > |`.
pub proof fn law_sanitized_is_safe(s: Seq<char>)
    ensures
        sanitized(s).len() == s.len(),
        forall|i: int|
            0 <= i < s.len() ==> {
                let c = #[trigger] sanitized(s)[i];
                c != '/' && c != '\\' && c != ':' && c != '*' && c != '?' && c != '"' && c != '<' && c != '>'
                    && c != '|'
            },
        forall|i: int| 0 <= i < s.len() ==> (safe_char(s[i]) == s[i] ==> #[trigger] sanitized(s)[i] == s[i]),
{
}

/// The next number is larger than the number of every ticket file with the
/// prefix, open or closed.
pub proof fn law_next_number_is_new(open_names: Seq<Seq<char>>, done_names: Seq<Seq<char>>, prefix: Seq<char>)
    ensures
        forall|k: int|
            0 <= k < open_names.len() ==> number_with_prefix(#[trigger] open_names[k], prefix) < 1 + (if max_number_of(
                open_names,
                prefix,
            ) > max_number_of(done_names, prefix) {
                max_number_of(open_names, prefix)
            } else {
                max_number_of(done_names, prefix)
            }),
        forall|k: int|
            0 <= k < done_names.len() ==> number_with_prefix(#[trigger] done_names[k], prefix) < 1 + (if max_number_of(
                open_names,
                prefix,
            ) > max_number_of(done_names, prefix) {
                max_number_of(open_names, prefix)
            } else {
                max_number_of(done_names, prefix)
            }),
{
    lemma_max_number(open_names, prefix);
    lemma_max_number(done_names, prefix);
}

} // verus!
