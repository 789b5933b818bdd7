//! Sync metadata kept in a ticket's frontmatter (`sync_*: value` lines), and
//! the content hash that tells whether a ticket changed since the last sync.
use vstd::prelude::*;
use sha2::Digest;
use crate::text::{
    chars_of, string_from_chars, slice_chars, push_all, chars_eq, has_at, starts_with, trim, trim_chars,
    find_char, lines, split_lines, join, join_chars, nl, views, decimal, decimal_chars,
    unsigned_text_value, parse_unsigned, is_trimmed, has_no_nl, is_ws, strip_cr, lemma_find_char_unique,
    lemma_trim_trimmed, lemma_trim_space_prefix, lemma_lines_cons, lemma_lines_last, lemma_lines_append,
    lemma_lines_no_nl, lemma_lines_join_nl,
    lemma_decimal_digits, all_ascii_digits,
};
use crate::ticket::{Ticket, canonical_body, find_char_from};
use crate::timestamp::{UtcInstant, parse_rfc3339, rfc3339_instant};

verus! {

#[derive(Debug, Clone)]
pub struct SyncMetadata {
    pub provider: String,
    pub repo: String,
    pub remote_id: String,
    pub content_hash: String,
    pub remote_updated: UtcInstant,
    pub comment_count: usize,
}

pub open spec fn key_provider() -> Seq<char> {
    seq!['s', 'y', 'n', 'c', '_', 'p', 'r', 'o', 'v', 'i', 'd', 'e', 'r']
}

pub open spec fn key_repo() -> Seq<char> {
    seq!['s', 'y', 'n', 'c', '_', 'r', 'e', 'p', 'o']
}

pub open spec fn key_issue() -> Seq<char> {
    seq!['s', 'y', 'n', 'c', '_', 'i', 's', 's', 'u', 'e']
}

pub open spec fn key_hash() -> Seq<char> {
    seq!['s', 'y', 'n', 'c', '_', 'h', 'a', 's', 'h']
}

pub open spec fn key_updated() -> Seq<char> {
    seq![
        's',
        'y',
        'n',
        'c',
        '_',
        'r',
        'e',
        'm',
        'o',
        't',
        'e',
        '_',
        'u',
        'p',
        'd',
        'a',
        't',
        'e',
        'd',
    ]
}

pub open spec fn key_count() -> Seq<char> {
    seq![
        's',
        'y',
        'n',
        'c',
        '_',
        'c',
        'o',
        'm',
        'm',
        'e',
        'n',
        't',
        '_',
        'c',
        'o',
        'u',
        'n',
        't',
    ]
}

pub open spec fn sync_word() -> Seq<char> {
    seq!['s', 'y', 'n', 'c', '_']
}

/// The six keys, in the order they are written.
pub open spec fn key_seq() -> Seq<Seq<char>> {
    seq![key_provider(), key_repo(), key_issue(), key_hash(), key_updated(), key_count()]
}

fn key_chars(k: u8) -> (r: Vec<char>)
    requires
        k < 6,
    ensures
        r@ == key_seq()[k as int],
{
    let mut r = vec!['s', 'y', 'n', 'c', '_'];
    let tail: Vec<char> = if k == 0 {
        vec!['p', 'r', 'o', 'v', 'i', 'd', 'e', 'r']
    } else if k == 1 {
        vec!['r', 'e', 'p', 'o']
    } else if k == 2 {
        vec!['i', 's', 's', 'u', 'e']
    } else if k == 3 {
        vec!['h', 'a', 's', 'h']
    } else if k == 4 {
        vec!['r', 'e', 'm', 'o', 't', 'e', '_', 'u', 'p', 'd', 'a', 't', 'e', 'd']
    } else {
        vec!['c', 'o', 'm', 'm', 'e', 'n', 't', '_', 'c', 'o', 'u', 'n', 't']
    };
    push_all(&mut r, &tail);
    assert(k == 0 ==> r@ =~= key_provider());
    assert(k == 1 ==> r@ =~= key_repo());
    assert(k == 2 ==> r@ =~= key_issue());
    assert(k == 3 ==> r@ =~= key_hash());
    assert(k == 4 ==> r@ =~= key_updated());
    assert(k == 5 ==> r@ =~= key_count());
    assert(r@ == key_seq()[k as int]);
    r
}

/// The key of a `key: value` line (text before the first `:`, trimmed).
pub open spec fn key_of(line: Seq<char>) -> Option<Seq<char>> {
    let c = find_char(line, ':', 0);
    if 0 <= c < line.len() {
        Some(trim(line.take(c)))
    } else {
        None
    }
}

/// The value of a `key: value` line (text after the first `:`, trimmed).
pub open spec fn value_of(line: Seq<char>) -> Seq<char> {
    trim(line.skip(find_char(line, ':', 0) + 1))
}

/// The value of the last line with this key.
pub open spec fn last_value(ls: Seq<Seq<char>>, key: Seq<char>) -> Option<Seq<char>>
    decreases ls.len(),
{
    if ls.len() == 0 {
        None
    } else if key_of(ls.last()) == Some(key) {
        Some(value_of(ls.last()))
    } else {
        last_value(ls.drop_last(), key)
    }
}

/// `str::parse::<usize>`.
pub open spec fn parse_usize_spec(s: Seq<char>) -> Option<usize> {
    match unsigned_text_value(s) {
        Some(v) => if v <= usize::MAX {
            Some(v as usize)
        } else {
            None
        },
        None => None,
    }
}

/// The metadata fields that frontmatter text holds: for each key the value of
/// its last line; the update time read as RFC 3339 and the count as a number.
pub struct MetadataFields {
    pub provider: Seq<char>,
    pub repo: Seq<char>,
    pub remote_id: Seq<char>,
    pub content_hash: Seq<char>,
    pub remote_updated: (int, int),
    pub comment_count: usize,
}

pub open spec fn metadata_fields(fm: Seq<char>) -> Option<MetadataFields> {
    let ls = lines(fm);
    let updated = match last_value(ls, key_updated()) {
        Some(v) => rfc3339_instant(v),
        None => None,
    };
    let count = match last_value(ls, key_count()) {
        Some(v) => parse_usize_spec(v),
        None => None,
    };
    if last_value(ls, key_provider()) is Some && last_value(ls, key_repo()) is Some && last_value(
        ls,
        key_issue(),
    ) is Some && last_value(ls, key_hash()) is Some && updated is Some && count is Some {
        Some(
            MetadataFields {
                provider: last_value(ls, key_provider()).unwrap(),
                repo: last_value(ls, key_repo()).unwrap(),
                remote_id: last_value(ls, key_issue()).unwrap(),
                content_hash: last_value(ls, key_hash()).unwrap(),
                remote_updated: updated.unwrap(),
                comment_count: count.unwrap(),
            },
        )
    } else {
        None
    }
}

impl SyncMetadata {
    pub open spec fn fields(&self) -> MetadataFields {
        MetadataFields {
            provider: self.provider@,
            repo: self.repo@,
            remote_id: self.remote_id@,
            content_hash: self.content_hash@,
            remote_updated: (self.remote_updated.secs as int, self.remote_updated.nanos as int),
            comment_count: self.comment_count,
        }
    }
}

pub open spec fn colon_space() -> Seq<char> {
    seq![':', ' ']
}

/// `key: value`.
pub open spec fn field_line(key: Seq<char>, value: Seq<char>) -> Seq<char> {
    key + colon_space() + value
}

/// The six `sync_*` lines, separated by line breaks.
pub open spec fn sync_block(
    provider: Seq<char>,
    repo: Seq<char>,
    remote_id: Seq<char>,
    content_hash: Seq<char>,
    updated_text: Seq<char>,
    comment_count: nat,
) -> Seq<char> {
    field_line(key_provider(), provider) + nl() + field_line(key_repo(), repo) + nl() + field_line(
        key_issue(),
        remote_id,
    ) + nl() + field_line(key_hash(), content_hash) + nl() + field_line(key_updated(), updated_text)
        + nl() + field_line(key_count(), decimal(comment_count))
}

/// The lines of this metadata.
pub open spec fn metadata_text(m: SyncMetadata) -> Seq<char> {
    sync_block(
        m.provider@,
        m.repo@,
        m.remote_id@,
        m.content_hash@,
        m.remote_updated.text@,
        m.comment_count as nat,
    )
}

/// A line is kept by a merge unless its key starts with `sync_`.
pub open spec fn kept_line(line: Seq<char>) -> bool {
    !starts_with(
        match key_of(line) {
            Some(k) => k,
            None => seq![],
        },
        sync_word(),
    )
}

/// Existing frontmatter without its `sync_*` lines, then the block of sync lines.
pub open spec fn merge_text(block: Seq<char>, existing: Option<Seq<char>>) -> Seq<char> {
    match existing {
        None => block,
        Some(e) => {
            let kept = lines(e).filter(|l: Seq<char>| kept_line(l));
            if kept.len() == 0 {
                block
            } else {
                join(kept, nl()) + nl() + block
            }
        },
    }
}

/// Existing frontmatter without its `sync_*` lines, then the metadata lines.
pub open spec fn merged_text(m: SyncMetadata, existing: Option<Seq<char>>) -> Seq<char> {
    merge_text(metadata_text(m), existing)
}

/// Key and value of a line, as the executable reader computes them.
fn split_field(line: &Vec<char>) -> (r: Option<(Vec<char>, Vec<char>)>)
    ensures
        match key_of(line@) {
            Some(k) => r matches Some((k2, v2)) && k2@ == k && v2@ == value_of(line@),
            None => r is None,
        },
{
    let c = find_char_from(line, ':', 0);
    if c < line.len() {
        let k = slice_chars(line, 0, c);
        assert(k@ =~= line@.take(c as int));
        let v = slice_chars(line, c + 1, line.len());
        assert(v@ =~= line@.skip(c + 1));
        Some((trim_chars(&k), trim_chars(&v)))
    } else {
        None
    }
}

fn clone_chars(v: &Vec<char>) -> (r: Vec<char>)
    ensures
        r@ == v@,
{
    slice_chars(v, 0, v.len())
}

impl SyncMetadata {
    /// Reads sync metadata from frontmatter text; `None` when a field is
    /// missing or unreadable. Of repeated keys the last line counts.
    pub fn from_frontmatter(fm: &str) -> (r: Option<SyncMetadata>)
        ensures
            r is Some <==> metadata_fields(fm@) is Some,
            r matches Some(m) ==> metadata_fields(fm@) == Some(m.fields()) && m.remote_updated.wf(),
    {
        let cs = chars_of(fm);
        let ls = split_lines(&cs);
        let ghost vls = views(ls@);
        let mut vals: Vec<Option<Vec<char>>> = vec![None, None, None, None, None, None];
        let keys = vec![key_chars(0), key_chars(1), key_chars(2), key_chars(3), key_chars(4), key_chars(5)];
        let ghost kseq = key_seq();
        assert(forall|j: int| 0 <= j < 6 ==> #[trigger] keys@[j]@ == kseq[j]);
        let mut i: usize = 0;
        while i < ls.len()
            invariant
                i <= ls.len(),
                vls == views(ls@),
                kseq == key_seq(),
                vals@.len() == 6,
                keys@.len() == 6,
                forall|j: int| 0 <= j < 6 ==> #[trigger] keys@[j]@ == kseq[j],
                forall|j: int|
                    0 <= j < 6 ==> match #[trigger] vals@[j] {
                        Some(v) => last_value(vls.take(i as int), kseq[j]) == Some(v@),
                        None => last_value(vls.take(i as int), kseq[j]) is None,
                    },
            decreases ls.len() - i,
        {
            let ghost t = vls.take(i + 1);
            assert(t.drop_last() =~= vls.take(i as int));
            assert(t.last() == ls@[i as int]@);
            assert(t.len() == i + 1);
            match split_field(&ls[i]) {
                Some((k, v)) => {
                    let mut j: usize = 0;
                    while j < 6
                        invariant
                            j <= 6,
                            vals@.len() == 6,
                            keys@.len() == 6,
                            kseq == key_seq(),
                            t.len() == i + 1,
                            key_of(t.last()) == Some(k@),
                            value_of(t.last()) == v@,
                            t.drop_last() == vls.take(i as int),
                            forall|jj: int| 0 <= jj < 6 ==> #[trigger] keys@[jj]@ == kseq[jj],
                            forall|jj: int|
                                0 <= jj < 6 ==> match #[trigger] vals@[jj] {
                                    Some(x) => last_value(
                                        if jj < j {
                                            t
                                        } else {
                                            vls.take(i as int)
                                        },
                                        kseq[jj],
                                    ) == Some(x@),
                                    None => last_value(
                                        if jj < j {
                                            t
                                        } else {
                                            vls.take(i as int)
                                        },
                                        kseq[jj],
                                    ) is None,
                                },
                        decreases 6 - j,
                    {
                        let ghost vals0 = vals@;
                        if chars_eq(&k, &keys[j]) {
                            vals.set(j, Some(clone_chars(&v)));
                            assert(key_of(t.last()) == Some(kseq[j as int]));
                            assert(last_value(t, kseq[j as int]) == Some(v@));
                        } else {
                            assert(key_of(t.last()) != Some(kseq[j as int]));
                            assert(last_value(t, kseq[j as int]) == last_value(t.drop_last(), kseq[j as int]));
                        }
                        assert(forall|jj: int| 0 <= jj < 6 && jj != j ==> vals@[jj] == vals0[jj]);
                        j = j + 1;
                    }
                },
                None => {},
            }
            i = i + 1;
        }
        assert(vls.take(ls.len() as int) =~= vls);
        let p = match &vals[0] {
            Some(v) => string_from_chars(v),
            None => {
                return None;
            },
        };
        let repo = match &vals[1] {
            Some(v) => string_from_chars(v),
            None => {
                return None;
            },
        };
        let issue = match &vals[2] {
            Some(v) => string_from_chars(v),
            None => {
                return None;
            },
        };
        let hash = match &vals[3] {
            Some(v) => string_from_chars(v),
            None => {
                return None;
            },
        };
        let updated = match &vals[4] {
            Some(v) => {
                let s = string_from_chars(v);
                match parse_rfc3339(s.as_str()) {
                    Some(u) => u,
                    None => {
                        return None;
                    },
                }
            },
            None => {
                return None;
            },
        };
        let count = match &vals[5] {
            Some(v) => match parse_unsigned(v, usize::MAX as u64) {
                Some(n) => n as usize,
                None => {
                    return None;
                },
            },
            None => {
                return None;
            },
        };
        Some(
            SyncMetadata {
                provider: p,
                repo,
                remote_id: issue,
                content_hash: hash,
                remote_updated: updated,
                comment_count: count,
            },
        )
    }

    fn text_chars(&self) -> (r: Vec<char>)
        ensures
            r@ == metadata_text(*self),
    {
        let mut out: Vec<char> = Vec::new();
        let parts: Vec<Vec<char>> = vec![
            chars_of(self.provider.as_str()),
            chars_of(self.repo.as_str()),
            chars_of(self.remote_id.as_str()),
            chars_of(self.content_hash.as_str()),
            chars_of(self.remote_updated.text.as_str()),
            decimal_chars(self.comment_count as u64),
        ];
        let ghost pseq = seq![
            self.provider@,
            self.repo@,
            self.remote_id@,
            self.content_hash@,
            self.remote_updated.text@,
            decimal(self.comment_count as nat),
        ];
        let ghost kseq = key_seq();
        assert(forall|j: int| 0 <= j < 6 ==> #[trigger] parts@[j]@ == pseq[j]);
        let mut j: usize = 0;
        let ghost acc: Seq<char> = seq![];
        while j < 6
            invariant
                j <= 6,
                parts@.len() == 6,
                kseq == key_seq(),
                pseq == seq![
                    self.provider@,
                    self.repo@,
                    self.remote_id@,
                    self.content_hash@,
                    self.remote_updated.text@,
                    decimal(self.comment_count as nat),
                ],
                forall|jj: int| 0 <= jj < 6 ==> #[trigger] parts@[jj]@ == pseq[jj],
                j == 0 ==> out@ == Seq::<char>::empty(),
                j >= 1 ==> out@ == field_line(kseq[0], pseq[0]) + (if j >= 2 {
                    nl() + field_line(kseq[1], pseq[1])
                } else {
                    seq![]
                }) + (if j >= 3 {
                    nl() + field_line(kseq[2], pseq[2])
                } else {
                    seq![]
                }) + (if j >= 4 {
                    nl() + field_line(kseq[3], pseq[3])
                } else {
                    seq![]
                }) + (if j >= 5 {
                    nl() + field_line(kseq[4], pseq[4])
                } else {
                    seq![]
                }) + (if j >= 6 {
                    nl() + field_line(kseq[5], pseq[5])
                } else {
                    seq![]
                }),
            decreases 6 - j,
        {
            let ghost before = out@;
            if j > 0 {
                out.push('\n');
            }
            let k = key_chars(j as u8);
            assert((j as u8) as int == j as int);
            assert(k@ == kseq[j as int]);
            push_all(&mut out, &k);
            out.push(':');
            out.push(' ');
            push_all(&mut out, &parts[j]);
            if j == 0 {
                assert(out@ =~= field_line(kseq[0], pseq[0]));
            } else {
                assert(out@ =~= before + (nl() + field_line(kseq[j as int], pseq[j as int])));
            }
            j = j + 1;
        }
        assert(out@ =~= metadata_text(*self));
        out
    }

    /// The six `sync_*: value` lines.
    pub fn to_frontmatter_string(&self) -> (r: String)
        ensures
            r@ == metadata_text(*self),
    {
        string_from_chars(&self.text_chars())
    }

    /// Existing frontmatter with its `sync_*` lines replaced by this metadata
    /// (other lines kept, in order, before the metadata lines).
    pub fn merge_into_frontmatter(&self, existing: Option<&str>) -> (r: String)
        ensures
            r@ == merged_text(
                *self,
                match existing {
                    Some(e) => Some(e@),
                    None => None,
                },
            ),
    {
        let sync_lines = self.text_chars();
        match existing {
            None => string_from_chars(&sync_lines),
            Some(e) => {
                let cs = chars_of(e);
                let ls = split_lines(&cs);
                let ghost vls = views(ls@);
                let sw = vec!['s', 'y', 'n', 'c', '_'];
                assert(sw@ =~= sync_word());
                let mut kept: Vec<Vec<char>> = Vec::new();
                let mut i: usize = 0;
                while i < ls.len()
                    invariant
                        i <= ls.len(),
                        vls == views(ls@),
                        sw@ == sync_word(),
                        views(kept@) == vls.take(i as int).filter(|l: Seq<char>| kept_line(l)),
                    decreases ls.len() - i,
                {
                    let key = match split_field(&ls[i]) {
                        Some((k, _)) => k,
                        None => Vec::new(),
                    };
                    let keep = !(key.len() >= 5 && has_at(&key, 0, &sw));
                    proof {
                        assert(key@.skip(0) =~= key@);
                        let t = vls.take(i + 1);
                        assert(t.drop_last() =~= vls.take(i as int));
                        assert(t.last() == ls@[i as int]@);
                        reveal_with_fuel(Seq::filter, 1);
                        assert(keep == kept_line(ls@[i as int]@));
                    }
                    if keep {
                        let ghost before = kept@;
                        kept.push(clone_chars(&ls[i]));
                        assert(views(kept@) =~= views(before).push(ls@[i as int]@));
                    }
                    proof {
                        reveal_with_fuel(Seq::filter, 1);
                        let t = vls.take(i + 1);
                        assert(t.drop_last() =~= vls.take(i as int));
                    }
                    i = i + 1;
                }
                assert(vls.take(ls.len() as int) =~= vls);
                if kept.len() == 0 {
                    string_from_chars(&sync_lines)
                } else {
                    let sep = vec!['\n'];
                    assert(sep@ =~= nl());
                    let mut out = join_chars(&kept, &sep);
                    out.push('\n');
                    push_all(&mut out, &sync_lines);
                    string_from_chars(&out)
                }
            },
        }
    }
}

// ---------------------------------------------------------------------------
// Reading back what was written
// ---------------------------------------------------------------------------
/// A field value that reads back unchanged: `trim` leaves it as it is and it
/// has no line break.
pub open spec fn clean_value(v: Seq<char>) -> bool {
    is_trimmed(v) && has_no_nl(v)
}

/// Characters of the keys: lower-case letters and `_`.
pub open spec fn key_text(k: Seq<char>) -> bool
    decreases k.len(),
{
    if k.len() == 0 {
        true
    } else {
        (('a' <= k[0] && k[0] <= 'z') || k[0] == '_') && key_text(k.drop_first())
    }
}

proof fn lemma_key_text(k: Seq<char>)
    requires
        key_text(k),
    ensures
        forall|i: int| 0 <= i < k.len() ==> (('a' <= #[trigger] k[i] && k[i] <= 'z') || k[i] == '_'),
    decreases k.len(),
{
    if k.len() > 0 {
        lemma_key_text(k.drop_first());
        assert forall|i: int| 0 <= i < k.len() implies (('a' <= #[trigger] k[i] && k[i] <= 'z') || k[i] == '_') by {
            if i > 0 {
                assert(k[i] == k.drop_first()[i - 1]);
            }
        }
    }
}

/// A key line: the key, `: ` and a clean value. Its key and value read back.
proof fn lemma_field_line(k: Seq<char>, v: Seq<char>)
    requires
        k.len() > 0,
        key_text(k),
        clean_value(v),
    ensures
        key_of(field_line(k, v)) == Some(k),
        value_of(field_line(k, v)) == v,
        has_no_nl(field_line(k, v)),
        strip_cr(field_line(k, v)) == field_line(k, v),
        field_line(k, v).len() > 0,
{
    lemma_key_text(k);
    let l = field_line(k, v);
    assert forall|i: int| 0 <= i < k.len() implies #[trigger] l[i] != ':' by {
        assert(l[i] == k[i]);
    }
    assert(l[k.len() as int] == ':');
    lemma_find_char_unique(l, ':', 0, k.len() as int);
    assert(l.take(k.len() as int) =~= k);
    assert(is_trimmed(k)) by {
        assert(k[0] == k[0]);
        assert(k.last() == k[k.len() - 1]);
    }
    lemma_trim_trimmed(k);
    assert(l.skip(k.len() as int + 1) =~= seq![' '] + v);
    lemma_trim_space_prefix(v);
    assert forall|i: int| 0 <= i < l.len() implies #[trigger] l[i] != '\n' by {
        if i < k.len() {
            assert(l[i] == k[i]);
        } else if i >= k.len() + 2 {
            assert(l[i] == v[i - k.len() - 2]);
        }
    }
    if v.len() > 0 {
        assert(l.last() == v.last());
        assert(!is_ws(v.last()));
    } else {
        assert(l.last() == ' ');
    }
}

proof fn lemma_keys()
    ensures
        key_text(key_provider()) && key_text(key_repo()) && key_text(key_issue()) && key_text(key_hash())
            && key_text(key_updated()) && key_text(key_count()),
        key_provider() != key_repo() && key_provider() != key_issue() && key_provider() != key_hash()
            && key_provider() != key_updated() && key_provider() != key_count(),
        key_repo() != key_issue() && key_repo() != key_hash() && key_repo() != key_updated() && key_repo()
            != key_count(),
        key_issue() != key_hash() && key_issue() != key_updated() && key_issue() != key_count(),
        key_hash() != key_updated() && key_hash() != key_count(),
        key_updated() != key_count(),
{
    reveal_with_fuel(key_text, 20);
    assert(key_text(key_provider()));
    assert(key_text(key_repo()));
    assert(key_text(key_issue()));
    assert(key_text(key_hash()));
    assert(key_text(key_updated()));
    assert(key_text(key_count()));
    assert(key_repo()[5] != key_hash()[5]);
}

/// The value of the last line with key `k`, when the line at `j` has it and no later one does.
proof fn lemma_last_value_at(ls: Seq<Seq<char>>, k: Seq<char>, j: int)
    requires
        0 <= j < ls.len(),
        key_of(ls[j]) == Some(k),
        forall|i: int| j < i < ls.len() ==> key_of(#[trigger] ls[i]) != Some(k),
    ensures
        last_value(ls, k) == Some(value_of(ls[j])),
    decreases ls.len(),
{
    if j < ls.len() - 1 {
        assert(key_of(ls[ls.len() - 1]) != Some(k));
        let d = ls.drop_last();
        assert forall|i: int| j < i < d.len() implies key_of(#[trigger] d[i]) != Some(k) by {
            assert(d[i] == ls[i]);
        }
        lemma_last_value_at(d, k, j);
    }
}

/// Lines after others decide the last value of a key they hold.
proof fn lemma_last_value_append(a: Seq<Seq<char>>, b: Seq<Seq<char>>, k: Seq<char>)
    requires
        last_value(b, k) is Some,
    ensures
        last_value(a + b, k) == last_value(b, k),
    decreases b.len(),
{
    if b.len() > 0 {
        let ab = a + b;
        assert(ab.last() == b.last());
        assert(ab.drop_last() =~= a + b.drop_last());
        if key_of(b.last()) != Some(k) {
            lemma_last_value_append(a, b.drop_last(), k);
        }
    }
}

/// Six lines without line breaks (none ending in `\r`, the last not empty),
/// joined with line breaks, split back into the same six lines.
proof fn lemma_six_lines(l0: Seq<char>, l1: Seq<char>, l2: Seq<char>, l3: Seq<char>, l4: Seq<char>, l5: Seq<char>)
    requires
        has_no_nl(l0) && strip_cr(l0) == l0,
        has_no_nl(l1) && strip_cr(l1) == l1,
        has_no_nl(l2) && strip_cr(l2) == l2,
        has_no_nl(l3) && strip_cr(l3) == l3,
        has_no_nl(l4) && strip_cr(l4) == l4,
        has_no_nl(l5) && l5.len() > 0,
    ensures
        lines(l0 + nl() + l1 + nl() + l2 + nl() + l3 + nl() + l4 + nl() + l5) == seq![l0, l1, l2, l3, l4, l5],
{
    let t4 = l5;
    let t3 = l4 + nl() + t4;
    let t2 = l3 + nl() + t3;
    let t1 = l2 + nl() + t2;
    let t0 = l1 + nl() + t1;
    let all = l0 + nl() + t0;
    assert(l0 + nl() + l1 + nl() + l2 + nl() + l3 + nl() + l4 + nl() + l5 =~= all);
    lemma_lines_last(t4);
    lemma_lines_cons(l4, t4);
    lemma_lines_cons(l3, t3);
    lemma_lines_cons(l2, t2);
    lemma_lines_cons(l1, t1);
    lemma_lines_cons(l0, t0);
    assert(lines(all) =~= seq![l0, l1, l2, l3, l4, l5]);
}

/// In six key lines with distinct keys, each key's last value is its own.
proof fn lemma_six_values(ls: Seq<Seq<char>>, ks: Seq<Seq<char>>, vs: Seq<Seq<char>>)
    requires
        ls.len() == 6 && ks.len() == 6 && vs.len() == 6,
        forall|j: int| 0 <= j < 6 ==> key_of(#[trigger] ls[j]) == Some(ks[j]) && value_of(ls[j]) == vs[j],
        forall|a: int, b: int| 0 <= a < b < 6 ==> #[trigger] ks[a] != #[trigger] ks[b],
    ensures
        forall|j: int| 0 <= j < 6 ==> last_value(ls, #[trigger] ks[j]) == Some(vs[j]),
{
    assert forall|j: int| 0 <= j < 6 implies last_value(ls, #[trigger] ks[j]) == Some(vs[j]) by {
        assert forall|i: int| j < i < ls.len() implies key_of(#[trigger] ls[i]) != Some(ks[j]) by {
            assert(key_of(ls[i]) == Some(ks[i]));
            assert(ks[j] != ks[i]);
        }
        lemma_last_value_at(ls, ks[j], j);
    }
}

/// Sync lines with clean values read back as the values they were written with.
#[verifier::spinoff_prover]
#[verifier::rlimit(40)]
proof fn lemma_block_fields(p: Seq<char>, r: Seq<char>, i: Seq<char>, h: Seq<char>, u: Seq<char>, c: nat)
    requires
        clean_value(p),
        clean_value(r),
        clean_value(i),
        clean_value(h),
        clean_value(u),
    ensures
        ({
            let ls = lines(sync_block(p, r, i, h, u, c));
            &&& last_value(ls, key_provider()) == Some(p)
            &&& last_value(ls, key_repo()) == Some(r)
            &&& last_value(ls, key_issue()) == Some(i)
            &&& last_value(ls, key_hash()) == Some(h)
            &&& last_value(ls, key_updated()) == Some(u)
            &&& last_value(ls, key_count()) == Some(decimal(c))
            &&& forall|j: int| 0 <= j < ls.len() ==> !kept_line(#[trigger] ls[j])
        }),
{
    let ks = key_seq();
    lemma_keys();
    lemma_decimal_digits(c);
    let d = decimal(c);
    assert(clean_value(d)) by {
        assert(all_ascii_digits(d));
        assert(d[0] == d[0]);
        assert(d.last() == d[d.len() - 1]);
        assert forall|k: int| 0 <= k < d.len() implies #[trigger] d[k] != '\n' by {
            assert(crate::text::is_ascii_digit(d[k]));
        }
    }
    let vs = seq![p, r, i, h, u, d];
    assert forall|j: int| 0 <= j < 6 implies ks[j].len() > 0 && key_text(#[trigger] ks[j]) && clean_value(vs[j]) by {
        if j == 0 {
        } else if j == 1 {
        } else if j == 2 {
        } else if j == 3 {
        } else if j == 4 {
        } else {
        }
    }
    let ls0 = seq![
        field_line(ks[0], vs[0]),
        field_line(ks[1], vs[1]),
        field_line(ks[2], vs[2]),
        field_line(ks[3], vs[3]),
        field_line(ks[4], vs[4]),
        field_line(ks[5], vs[5]),
    ];
    assert forall|j: int| 0 <= j < 6 implies key_of(#[trigger] ls0[j]) == Some(ks[j]) && value_of(ls0[j]) == vs[j]
        && has_no_nl(ls0[j]) && strip_cr(ls0[j]) == ls0[j] && ls0[j].len() > 0 by {
        lemma_field_line(ks[j], vs[j]);
    }
    lemma_six_lines(ls0[0], ls0[1], ls0[2], ls0[3], ls0[4], ls0[5]);
    assert(sync_block(p, r, i, h, u, c) == ls0[0] + nl() + ls0[1] + nl() + ls0[2] + nl() + ls0[3] + nl() + ls0[4]
        + nl() + ls0[5]);
    let ls = lines(sync_block(p, r, i, h, u, c));
    assert(ls == ls0);
    assert forall|a: int, b: int| 0 <= a < b < 6 implies #[trigger] ks[a] != #[trigger] ks[b] by {
    }
    lemma_six_values(ls, ks, vs);
    assert forall|j: int| 0 <= j < ls.len() implies !kept_line(#[trigger] ls[j]) by {
        assert(key_of(ls[j]) == Some(ks[j]));
        assert(ks[j].take(5) =~= sync_word());
    }
    assert(ks[0] == key_provider());
    assert(last_value(ls, ks[0]) == Some(vs[0]));
    assert(last_value(ls, ks[1]) == Some(vs[1]));
    assert(last_value(ls, ks[2]) == Some(vs[2]));
    assert(last_value(ls, ks[3]) == Some(vs[3]));
    assert(last_value(ls, ks[4]) == Some(vs[4]));
    assert(last_value(ls, ks[5]) == Some(vs[5]));
}

/// `str::parse::<usize>` reads a count back from its decimal text.
proof fn lemma_parse_count(c: usize)
    ensures
        parse_usize_spec(decimal(c as nat)) == Some(c),
{
    lemma_decimal_digits(c as nat);
    let d = decimal(c as nat);
    assert(d[0] != '+') by {
        assert(crate::text::is_ascii_digit(d[0]));
    }
}

/// The fields a metadata value is read back as, when its time reads back as itself.
pub open spec fn readable_metadata(m: SyncMetadata) -> bool {
    &&& clean_value(m.provider@)
    &&& clean_value(m.repo@)
    &&& clean_value(m.remote_id@)
    &&& clean_value(m.content_hash@)
    &&& m.remote_updated.wf()
    &&& 0 <= m.remote_updated.minute.year <= 9999
}

pub proof fn lemma_instant_text_clean(u: UtcInstant)
    requires
        u.wf(),
    ensures
        clean_value(u.text@),
{
    assert(!is_ws(u.text@[0]));
    assert(!is_ws(u.text@[u.text@.len() - 1]));
    assert forall|k: int| 0 <= k < u.text@.len() implies #[trigger] u.text@[k] != '\n' by {
        assert(!is_ws(u.text@[k]));
    }
}

/// Writing sync metadata and reading it back gives the same fields, for
/// values without line breaks that `trim` leaves unchanged and an update
/// time whose year RFC 3339 writes with four digits (0 to 9999).
pub proof fn law_metadata_roundtrip(m: SyncMetadata)
    requires
        readable_metadata(m),
    ensures
        metadata_fields(metadata_text(m)) == Some(m.fields()),
{
    lemma_instant_text_clean(m.remote_updated);
    lemma_block_fields(
        m.provider@,
        m.repo@,
        m.remote_id@,
        m.content_hash@,
        m.remote_updated.text@,
        m.comment_count as nat,
    );
    lemma_parse_count(m.comment_count);
}

/// A block of sync lines merged into frontmatter reads back as its values
/// (the update time as the instant its text names).
pub proof fn lemma_merge_block(
    p: Seq<char>,
    r: Seq<char>,
    i: Seq<char>,
    h: Seq<char>,
    u: Seq<char>,
    c: usize,
    existing: Option<Seq<char>>,
)
    requires
        clean_value(p),
        clean_value(r),
        clean_value(i),
        clean_value(h),
        clean_value(u),
        rfc3339_instant(u) is Some,
    ensures
        metadata_fields(merge_text(sync_block(p, r, i, h, u, c as nat), existing)) == Some(
            MetadataFields {
                provider: p,
                repo: r,
                remote_id: i,
                content_hash: h,
                remote_updated: rfc3339_instant(u).unwrap(),
                comment_count: c,
            },
        ),
{
    let block = sync_block(p, r, i, h, u, c as nat);
    lemma_block_fields(p, r, i, h, u, c as nat);
    lemma_parse_count(c);
    match existing {
        None => {},
        Some(e) => {
            let kept = lines(e).filter(|l: Seq<char>| kept_line(l));
            if kept.len() > 0 {
                let head = join(kept, nl()) + nl();
                assert(merge_text(block, existing) =~= head + block);
                lemma_lines_append(head, block);
                let a = lines(head);
                let b = lines(block);
                lemma_last_value_append(a, b, key_provider());
                lemma_last_value_append(a, b, key_repo());
                lemma_last_value_append(a, b, key_issue());
                lemma_last_value_append(a, b, key_hash());
                lemma_last_value_append(a, b, key_updated());
                lemma_last_value_append(a, b, key_count());
            }
        },
    }
}

/// Merging sync metadata into frontmatter and reading the result gives the
/// metadata's fields, whatever other lines the frontmatter had (for the same
/// values as `law_metadata_roundtrip`).
pub proof fn law_merge_then_read(m: SyncMetadata, existing: Option<Seq<char>>)
    requires
        readable_metadata(m),
    ensures
        metadata_fields(merged_text(m, existing)) == Some(m.fields()),
{
    lemma_instant_text_clean(m.remote_updated);
    lemma_merge_block(
        m.provider@,
        m.repo@,
        m.remote_id@,
        m.content_hash@,
        m.remote_updated.text@,
        m.comment_count,
        existing,
    );
}

/// Lines that are all kept stay as they are.
proof fn lemma_filter_all_kept(s: Seq<Seq<char>>)
    requires
        forall|i: int| 0 <= i < s.len() ==> kept_line(#[trigger] s[i]),
    ensures
        s.filter(|l: Seq<char>| kept_line(l)) == s,
    decreases s.len(),
{
    reveal(Seq::filter);
    if s.len() > 0 {
        let d = s.drop_last();
        assert forall|i: int| 0 <= i < d.len() implies kept_line(#[trigger] d[i]) by {
            assert(d[i] == s[i]);
        }
        lemma_filter_all_kept(d);
        assert(kept_line(s.last()));
        assert(d.push(s.last()) =~= s);
    }
}

/// Lines none of which is kept all go.
proof fn lemma_filter_none_kept(s: Seq<Seq<char>>)
    requires
        forall|i: int| 0 <= i < s.len() ==> !kept_line(#[trigger] s[i]),
    ensures
        s.filter(|l: Seq<char>| kept_line(l)) == Seq::<Seq<char>>::empty(),
    decreases s.len(),
{
    reveal(Seq::filter);
    if s.len() > 0 {
        let d = s.drop_last();
        assert forall|i: int| 0 <= i < d.len() implies !kept_line(#[trigger] d[i]) by {
            assert(d[i] == s[i]);
        }
        lemma_filter_none_kept(d);
        assert(!kept_line(s.last()));
    }
}

/// Merging sync metadata into frontmatter that already holds merged metadata
/// gives what merging it into the earlier frontmatter gives: the earlier sync
/// lines are replaced and the other lines kept once. This holds where the
/// earlier metadata's values are clean (as `law_metadata_roundtrip` asks) and
/// no line of the earlier frontmatter ends in `\r`.
pub proof fn law_merge_replaces(m1: SyncMetadata, m2: SyncMetadata, existing: Option<Seq<char>>)
    requires
        clean_value(m1.provider@),
        clean_value(m1.repo@),
        clean_value(m1.remote_id@),
        clean_value(m1.content_hash@),
        m1.remote_updated.wf(),
        existing matches Some(e) ==> forall|i: int| 0 <= i < lines(e).len() ==> strip_cr(#[trigger] lines(e)[i]) == lines(e)[i],
    ensures
        merged_text(m2, Some(merged_text(m1, existing))) == merged_text(m2, existing),
{
    let b1 = metadata_text(m1);
    lemma_instant_text_clean(m1.remote_updated);
    lemma_block_fields(
        m1.provider@,
        m1.repo@,
        m1.remote_id@,
        m1.content_hash@,
        m1.remote_updated.text@,
        m1.comment_count as nat,
    );
    let six = lines(b1);
    lemma_filter_none_kept(six);
    match existing {
        None => {},
        Some(e) => {
            let kept = lines(e).filter(|l: Seq<char>| kept_line(l));
            if kept.len() > 0 {
                lemma_lines_no_nl(e);
                assert forall|i: int| 0 <= i < kept.len() implies has_no_nl(#[trigger] kept[i]) && strip_cr(kept[i])
                    == kept[i] && kept_line(kept[i]) by {
                    lines(e).lemma_filter_pred(|l: Seq<char>| kept_line(l), i);
                    assert(kept.contains(kept[i]));
                    lines(e).lemma_filter_contains_rev(|l: Seq<char>| kept_line(l), kept[i]);
                    let j = choose|j: int| 0 <= j < lines(e).len() && lines(e)[j] == kept[i];
                    assert(has_no_nl(lines(e)[j]));
                }
                let head = join(kept, nl()) + nl();
                lemma_lines_join_nl(kept);
                assert(merged_text(m1, existing) =~= head + b1);
                lemma_lines_append(head, b1);
                lemma_filter_all_kept(kept);
                Seq::filter_distributes_over_add(kept, six, |l: Seq<char>| kept_line(l));
                assert(lines(head + b1).filter(|l: Seq<char>| kept_line(l)) =~= kept);
            }
        },
    }
}

// ---------------------------------------------------------------------------
// Content hash
// ---------------------------------------------------------------------------
/// The SHA-256 digest of `data`.
pub uninterp spec fn sha256(data: Seq<u8>) -> Seq<u8>;

/// `Sha256::digest`: the 32-byte SHA-256 digest of the bytes.
#[verifier::external_body]
fn sha256_digest(data: &[u8]) -> (r: Vec<u8>)
    ensures
        r@ == sha256(data@),
        r@.len() == 32,
{
    sha2::Sha256::digest(data).to_vec()
}

pub open spec fn hex_digit(n: int) -> char {
    if n < 10 {
        (n + 48) as char
    } else {
        (n - 10 + 97) as char
    }
}

/// Lower-case hexadecimal, two digits per byte.
pub open spec fn lower_hex(bytes: Seq<u8>) -> Seq<char>
    decreases bytes.len(),
{
    if bytes.len() == 0 {
        seq![]
    } else {
        lower_hex(bytes.drop_last()) + seq![
            hex_digit(bytes.last() as int / 16),
            hex_digit(bytes.last() as int % 16),
        ]
    }
}

fn hex_char(n: u8) -> (c: char)
    requires
        n < 16,
    ensures
        c == hex_digit(n as int),
{
    let table = vec!['0', '1', '2', '3', '4', '5', '6', '7', '8', '9', 'a', 'b', 'c', 'd', 'e', 'f'];
    assert(table@[n as int] == hex_digit(n as int));
    table[n as usize]
}

/// Lower-case hex has no whitespace.
pub proof fn lemma_lower_hex_clean(bytes: Seq<u8>)
    ensures
        clean_value(lower_hex(bytes)),
        forall|k: int| 0 <= k < lower_hex(bytes).len() ==> !is_ws(#[trigger] lower_hex(bytes)[k]),
    decreases bytes.len(),
{
    if bytes.len() > 0 {
        lemma_lower_hex_clean(bytes.drop_last());
        let prev = lower_hex(bytes.drop_last());
        let a = hex_digit(bytes.last() as int / 16);
        let b = hex_digit(bytes.last() as int % 16);
        let h = lower_hex(bytes);
        assert(h == prev + seq![a, b]);
        assert(!is_ws(a) && !is_ws(b));
        assert forall|k: int| 0 <= k < h.len() implies !is_ws(#[trigger] h[k]) by {
            if k < prev.len() {
                assert(h[k] == prev[k]);
            }
        }
        assert(h[0] == h[0]);
        assert(h.last() == b);
        assert forall|k: int| 0 <= k < h.len() implies #[trigger] h[k] != '\n' by {
            assert(!is_ws(h[k]));
        }
    }
}

/// The content hash of text: SHA-256 of its UTF-8 bytes, in lower-case hex.
pub open spec fn text_hash(s: Seq<char>) -> Seq<char> {
    lower_hex(sha256(vstd::utf8::encode_utf8(s)))
}

/// The bytes in lower-case hexadecimal, two digits per byte.
pub fn lower_hex_text(bytes: &Vec<u8>) -> (r: String)
    ensures
        r@ == lower_hex(bytes@),
        r@.len() == 2 * bytes@.len(),
{
    let mut out: Vec<char> = Vec::new();
    let mut i: usize = 0;
    while i < bytes.len()
        invariant
            i <= bytes.len(),
            out@ == lower_hex(bytes@.take(i as int)),
            out@.len() == 2 * i,
        decreases bytes.len() - i,
    {
        let b = bytes[i];
        out.push(hex_char(b / 16));
        out.push(hex_char(b % 16));
        let ghost t = bytes@.take(i + 1);
        assert(t.drop_last() =~= bytes@.take(i as int));
        i = i + 1;
    }
    assert(bytes@.take(bytes.len() as int) =~= bytes@);
    string_from_chars(&out)
}

/// SHA-256 of the canonical text without frontmatter, in lower-case hex.
pub fn compute_content_hash(ticket: &Ticket, default_status: &str) -> (r: String)
    requires
        ticket.times_wf(),
    ensures
        r@ == text_hash(canonical_body(ticket@, default_status@)),
        r@.len() == 64,
{
    let content = ticket.content_for_hash(default_status);
    let digest = sha256_digest(content.as_str().as_bytes());
    lower_hex_text(&digest)
}

} // verus!
