//! Character-level building blocks: whitespace and digit classes, trimming,
//! line splitting, joining, decimal numbers and simple substring operations.
//! Every executable helper here is proved against a spec function on `Seq<char>`.
use vstd::prelude::*;

verus! {

// ---------------------------------------------------------------------------
// Character classes
// ---------------------------------------------------------------------------
/// Unicode `White_Space`, the class used by `str::trim` and by `\s` in patterns.
pub open spec fn is_ws(c: char) -> bool {
    let u = c as u32;
    (0x09 <= u && u <= 0x0d) || u == 0x20 || u == 0x85 || u == 0xa0 || u == 0x1680 || (0x2000 <= u
        && u <= 0x200a) || u == 0x2028 || u == 0x2029 || u == 0x202f || u == 0x205f || u == 0x3000
}

pub fn is_ws_char(c: char) -> (r: bool)
    ensures
        r == is_ws(c),
{
    let u = c as u32;
    (0x09 <= u && u <= 0x0d) || u == 0x20 || u == 0x85 || u == 0xa0 || u == 0x1680 || (0x2000 <= u
        && u <= 0x200a) || u == 0x2028 || u == 0x2029 || u == 0x202f || u == 0x205f || u == 0x3000
}

pub open spec fn is_ascii_digit(c: char) -> bool {
    '0' <= c && c <= '9'
}

pub open spec fn is_ascii_upper(c: char) -> bool {
    'A' <= c && c <= 'Z'
}

/// Unicode general category `Nd` (decimal digits), the class of `\d` in patterns
/// (Unicode 16.0).
pub open spec fn is_nd(c: char) -> bool {
    let u = c as u32;
    ||| 0x30 <= u <= 0x39
    ||| 0x660 <= u <= 0x669
    ||| 0x6f0 <= u <= 0x6f9
    ||| 0x7c0 <= u <= 0x7c9
    ||| 0x966 <= u <= 0x96f
    ||| 0x9e6 <= u <= 0x9ef
    ||| 0xa66 <= u <= 0xa6f
    ||| 0xae6 <= u <= 0xaef
    ||| 0xb66 <= u <= 0xb6f
    ||| 0xbe6 <= u <= 0xbef
    ||| 0xc66 <= u <= 0xc6f
    ||| 0xce6 <= u <= 0xcef
    ||| 0xd66 <= u <= 0xd6f
    ||| 0xde6 <= u <= 0xdef
    ||| 0xe50 <= u <= 0xe59
    ||| 0xed0 <= u <= 0xed9
    ||| 0xf20 <= u <= 0xf29
    ||| 0x1040 <= u <= 0x1049
    ||| 0x1090 <= u <= 0x1099
    ||| 0x17e0 <= u <= 0x17e9
    ||| 0x1810 <= u <= 0x1819
    ||| 0x1946 <= u <= 0x194f
    ||| 0x19d0 <= u <= 0x19d9
    ||| 0x1a80 <= u <= 0x1a89
    ||| 0x1a90 <= u <= 0x1a99
    ||| 0x1b50 <= u <= 0x1b59
    ||| 0x1bb0 <= u <= 0x1bb9
    ||| 0x1c40 <= u <= 0x1c49
    ||| 0x1c50 <= u <= 0x1c59
    ||| 0xa620 <= u <= 0xa629
    ||| 0xa8d0 <= u <= 0xa8d9
    ||| 0xa900 <= u <= 0xa909
    ||| 0xa9d0 <= u <= 0xa9d9
    ||| 0xa9f0 <= u <= 0xa9f9
    ||| 0xaa50 <= u <= 0xaa59
    ||| 0xabf0 <= u <= 0xabf9
    ||| 0xff10 <= u <= 0xff19
    ||| 0x104a0 <= u <= 0x104a9
    ||| 0x10d30 <= u <= 0x10d39
    ||| 0x10d40 <= u <= 0x10d49
    ||| 0x11066 <= u <= 0x1106f
    ||| 0x110f0 <= u <= 0x110f9
    ||| 0x11136 <= u <= 0x1113f
    ||| 0x111d0 <= u <= 0x111d9
    ||| 0x112f0 <= u <= 0x112f9
    ||| 0x11450 <= u <= 0x11459
    ||| 0x114d0 <= u <= 0x114d9
    ||| 0x11650 <= u <= 0x11659
    ||| 0x116c0 <= u <= 0x116c9
    ||| 0x116d0 <= u <= 0x116e3
    ||| 0x11730 <= u <= 0x11739
    ||| 0x118e0 <= u <= 0x118e9
    ||| 0x11950 <= u <= 0x11959
    ||| 0x11bf0 <= u <= 0x11bf9
    ||| 0x11c50 <= u <= 0x11c59
    ||| 0x11d50 <= u <= 0x11d59
    ||| 0x11da0 <= u <= 0x11da9
    ||| 0x11f50 <= u <= 0x11f59
    ||| 0x16130 <= u <= 0x16139
    ||| 0x16a60 <= u <= 0x16a69
    ||| 0x16ac0 <= u <= 0x16ac9
    ||| 0x16b50 <= u <= 0x16b59
    ||| 0x16d70 <= u <= 0x16d79
    ||| 0x1ccf0 <= u <= 0x1ccf9
    ||| 0x1d7ce <= u <= 0x1d7ff
    ||| 0x1e140 <= u <= 0x1e149
    ||| 0x1e2f0 <= u <= 0x1e2f9
    ||| 0x1e4f0 <= u <= 0x1e4f9
    ||| 0x1e5f1 <= u <= 0x1e5fa
    ||| 0x1e950 <= u <= 0x1e959
    ||| 0x1fbf0 <= u <= 0x1fbf9
}

pub fn is_nd_char(c: char) -> (r: bool)
    ensures
        r == is_nd(c),
{
    let u = c as u32;
    if u < 0x80 {
        return 0x30 <= u && u <= 0x39;
    }
    (0x660 <= u && u <= 0x669) || (0x6f0 <= u && u <= 0x6f9) || (0x7c0 <= u && u <= 0x7c9) || (0x966
        <= u && u <= 0x96f) || (0x9e6 <= u && u <= 0x9ef) || (0xa66 <= u && u <= 0xa6f) || (0xae6
        <= u && u <= 0xaef) || (0xb66 <= u && u <= 0xb6f) || (0xbe6 <= u && u <= 0xbef) || (0xc66
        <= u && u <= 0xc6f) || (0xce6 <= u && u <= 0xcef) || (0xd66 <= u && u <= 0xd6f) || (0xde6
        <= u && u <= 0xdef) || (0xe50 <= u && u <= 0xe59) || (0xed0 <= u && u <= 0xed9) || (0xf20
        <= u && u <= 0xf29) || (0x1040 <= u && u <= 0x1049) || (0x1090 <= u && u <= 0x1099) || (
    0x17e0 <= u && u <= 0x17e9) || (0x1810 <= u && u <= 0x1819) || (0x1946 <= u && u <= 0x194f)
        || (0x19d0 <= u && u <= 0x19d9) || (0x1a80 <= u && u <= 0x1a89) || (0x1a90 <= u && u
        <= 0x1a99) || (0x1b50 <= u && u <= 0x1b59) || (0x1bb0 <= u && u <= 0x1bb9) || (0x1c40 <= u
        && u <= 0x1c49) || (0x1c50 <= u && u <= 0x1c59) || (0xa620 <= u && u <= 0xa629) || (0xa8d0
        <= u && u <= 0xa8d9) || (0xa900 <= u && u <= 0xa909) || (0xa9d0 <= u && u <= 0xa9d9) || (
    0xa9f0 <= u && u <= 0xa9f9) || (0xaa50 <= u && u <= 0xaa59) || (0xabf0 <= u && u <= 0xabf9)
        || (0xff10 <= u && u <= 0xff19) || (0x104a0 <= u && u <= 0x104a9) || (0x10d30 <= u && u
        <= 0x10d39) || (0x10d40 <= u && u <= 0x10d49) || (0x11066 <= u && u <= 0x1106f) || (0x110f0
        <= u && u <= 0x110f9) || (0x11136 <= u && u <= 0x1113f) || (0x111d0 <= u && u <= 0x111d9)
        || (0x112f0 <= u && u <= 0x112f9) || (0x11450 <= u && u <= 0x11459) || (0x114d0 <= u && u
        <= 0x114d9) || (0x11650 <= u && u <= 0x11659) || (0x116c0 <= u && u <= 0x116c9) || (0x116d0
        <= u && u <= 0x116e3) || (0x11730 <= u && u <= 0x11739) || (0x118e0 <= u && u <= 0x118e9)
        || (0x11950 <= u && u <= 0x11959) || (0x11bf0 <= u && u <= 0x11bf9) || (0x11c50 <= u && u
        <= 0x11c59) || (0x11d50 <= u && u <= 0x11d59) || (0x11da0 <= u && u <= 0x11da9) || (0x11f50
        <= u && u <= 0x11f59) || (0x16130 <= u && u <= 0x16139) || (0x16a60 <= u && u <= 0x16a69)
        || (0x16ac0 <= u && u <= 0x16ac9) || (0x16b50 <= u && u <= 0x16b59) || (0x16d70 <= u && u
        <= 0x16d79) || (0x1ccf0 <= u && u <= 0x1ccf9) || (0x1d7ce <= u && u <= 0x1d7ff) || (0x1e140
        <= u && u <= 0x1e149) || (0x1e2f0 <= u && u <= 0x1e2f9) || (0x1e4f0 <= u && u <= 0x1e4f9)
        || (0x1e5f1 <= u && u <= 0x1e5fa) || (0x1e950 <= u && u <= 0x1e959) || (0x1fbf0 <= u && u
        <= 0x1fbf9)
}

// ---------------------------------------------------------------------------
// Conversions between `str`/`String` and `Vec<char>`
// ---------------------------------------------------------------------------
/// The characters of `s`, in order.
pub fn chars_of(s: &str) -> (v: Vec<char>)
    ensures
        v@ == s@,
{
    let mut v: Vec<char> = Vec::new();
    for c in it: s.chars()
        invariant
            v@ == it.seq().take(it.index() as int),
            it.seq() == s@,
    {
        v.push(c);
        assert(v@ =~= it.seq().take(it.index() as int + 1));
    }
    v
}

/// A `String` holding exactly the characters `v` (std's `FromIterator<&char>` for `String`).
#[verifier::external_body]
pub(crate) fn string_from_chars(v: &Vec<char>) -> (s: String)
    ensures
        s@ == v@,
{
    v.iter().collect()
}

/// Copy of `s[from..to]`.
pub fn slice_chars(s: &Vec<char>, from: usize, to: usize) -> (r: Vec<char>)
    requires
        from <= to <= s.len(),
    ensures
        r@ == s@.subrange(from as int, to as int),
{
    let mut r: Vec<char> = Vec::new();
    let mut i = from;
    while i < to
        invariant
            from <= i <= to <= s.len(),
            r@ == s@.subrange(from as int, i as int),
        decreases to - i,
    {
        r.push(s[i]);
        i = i + 1;
        assert(r@ =~= s@.subrange(from as int, i as int));
    }
    r
}

/// Appends all of `s` to `out`.
pub fn push_all(out: &mut Vec<char>, s: &Vec<char>)
    ensures
        final(out)@ == old(out)@ + s@,
{
    let ghost start = out@;
    let mut i: usize = 0;
    while i < s.len()
        invariant
            i <= s.len(),
            out@ == start + s@.take(i as int),
        decreases s.len() - i,
    {
        out.push(s[i]);
        i = i + 1;
        assert(out@ =~= start + s@.take(i as int));
    }
    assert(s@.take(s.len() as int) =~= s@);
}

/// Equality of two character vectors.
pub fn chars_eq(a: &Vec<char>, b: &Vec<char>) -> (r: bool)
    ensures
        r == (a@ == b@),
{
    if a.len() != b.len() {
        return false;
    }
    let mut i: usize = 0;
    while i < a.len()
        invariant
            i <= a.len() == b.len(),
            forall|k: int| 0 <= k < i ==> a@[k] == b@[k],
        decreases a.len() - i,
    {
        if a[i] != b[i] {
            return false;
        }
        i = i + 1;
    }
    assert(a@ =~= b@);
    true
}

/// Equality of two strings' characters.
pub fn str_eq(a: &str, b: &str) -> (r: bool)
    ensures
        r == (a@ == b@),
{
    let x = chars_of(a);
    let y = chars_of(b);
    chars_eq(&x, &y)
}

// ---------------------------------------------------------------------------
// Prefixes
// ---------------------------------------------------------------------------
pub open spec fn starts_with(s: Seq<char>, p: Seq<char>) -> bool {
    p.len() <= s.len() && s.take(p.len() as int) == p
}

/// Whether `s[at..]` starts with `p`.
pub fn has_at(s: &Vec<char>, at: usize, p: &Vec<char>) -> (r: bool)
    requires
        at <= s.len(),
    ensures
        r == starts_with(s@.skip(at as int), p@),
{
    if s.len() - at < p.len() {
        return false;
    }
    let mut i: usize = 0;
    while i < p.len()
        invariant
            i <= p.len(),
            at + p.len() <= s.len(),
            forall|k: int| 0 <= k < i ==> s@[at + k] == p@[k],
        decreases p.len() - i,
    {
        if s[at + i] != p[i] {
            assert(s@.skip(at as int).take(p.len() as int)[i as int] != p@[i as int]);
            return false;
        }
        i = i + 1;
    }
    assert(s@.skip(at as int).take(p.len() as int) =~= p@);
    true
}

// ---------------------------------------------------------------------------
// Whitespace runs and trimming
// ---------------------------------------------------------------------------
/// End of the run of whitespace that starts at `i`.
pub open spec fn ws_end(s: Seq<char>, i: int) -> int
    decreases s.len() - i,
{
    if 0 <= i < s.len() && is_ws(s[i]) {
        ws_end(s, i + 1)
    } else {
        i
    }
}

/// Start of the run of whitespace that ends at `j`.
pub open spec fn ws_begin(s: Seq<char>, j: int) -> int
    decreases j,
{
    if 0 < j <= s.len() && is_ws(s[j - 1]) {
        ws_begin(s, j - 1)
    } else {
        j
    }
}

pub open spec fn all_ws(s: Seq<char>) -> bool {
    forall|k: int| 0 <= k < s.len() ==> is_ws(#[trigger] s[k])
}

/// `str::trim_start`.
pub open spec fn trim_start(s: Seq<char>) -> Seq<char> {
    s.skip(ws_end(s, 0))
}

/// `str::trim_end`.
pub open spec fn trim_end(s: Seq<char>) -> Seq<char> {
    s.take(ws_begin(s, s.len() as int))
}

/// `str::trim`.
pub open spec fn trim(s: Seq<char>) -> Seq<char> {
    trim_end(trim_start(s))
}

/// A string that `trim` leaves unchanged.
pub open spec fn is_trimmed(s: Seq<char>) -> bool {
    s.len() == 0 || (!is_ws(s[0]) && !is_ws(s.last()))
}

pub proof fn lemma_ws_end(s: Seq<char>, i: int)
    requires
        0 <= i <= s.len(),
    ensures
        i <= ws_end(s, i) <= s.len(),
        forall|k: int| i <= k < ws_end(s, i) ==> is_ws(#[trigger] s[k]),
        ws_end(s, i) == s.len() || !is_ws(s[ws_end(s, i)]),
    decreases s.len() - i,
{
    if i < s.len() && is_ws(s[i]) {
        lemma_ws_end(s, i + 1);
    }
}

pub proof fn lemma_ws_begin(s: Seq<char>, j: int)
    requires
        0 <= j <= s.len(),
    ensures
        0 <= ws_begin(s, j) <= j,
        forall|k: int| ws_begin(s, j) <= k < j ==> is_ws(#[trigger] s[k]),
        ws_begin(s, j) == 0 || !is_ws(s[ws_begin(s, j) - 1]),
    decreases j,
{
    if 0 < j && is_ws(s[j - 1]) {
        lemma_ws_begin(s, j - 1);
    }
}

/// `ws_end` is determined by the run property.
pub proof fn lemma_ws_end_unique(s: Seq<char>, i: int, e: int)
    requires
        0 <= i <= e <= s.len(),
        forall|k: int| i <= k < e ==> is_ws(#[trigger] s[k]),
        e == s.len() || !is_ws(s[e]),
    ensures
        ws_end(s, i) == e,
    decreases e - i,
{
    if i < e {
        assert(is_ws(s[i]));
        lemma_ws_end_unique(s, i + 1, e);
    }
}

pub proof fn lemma_ws_begin_unique(s: Seq<char>, j: int, b: int)
    requires
        0 <= b <= j <= s.len(),
        forall|k: int| b <= k < j ==> is_ws(#[trigger] s[k]),
        b == 0 || !is_ws(s[b - 1]),
    ensures
        ws_begin(s, j) == b,
    decreases j - b,
{
    if b < j {
        assert(is_ws(s[j - 1]));
        lemma_ws_begin_unique(s, j - 1, b);
    }
}

/// A trimmed string is its own trim.
pub proof fn lemma_trim_trimmed(s: Seq<char>)
    requires
        is_trimmed(s),
    ensures
        trim(s) == s,
        trim_start(s) == s,
        trim_end(s) == s,
{
    lemma_ws_end_unique(s, 0, 0);
    assert(s.skip(0) =~= s);
    lemma_ws_begin_unique(s, s.len() as int, s.len() as int);
    assert(s.take(s.len() as int) =~= s);
}

/// Index of the first character of `s` that is not whitespace.
pub fn skip_ws(s: &Vec<char>, i: usize) -> (e: usize)
    requires
        i <= s.len(),
    ensures
        e == ws_end(s@, i as int),
        i <= e <= s.len(),
{
    proof {
        lemma_ws_end(s@, i as int);
    }
    let mut e = i;
    while e < s.len() && is_ws_char(s[e])
        invariant
            i <= e <= s.len(),
            ws_end(s@, e as int) == ws_end(s@, i as int),
        decreases s.len() - e,
    {
        e = e + 1;
    }
    e
}

/// Index just after the last character before `j` that is not whitespace.
pub fn skip_ws_back(s: &Vec<char>, j: usize) -> (b: usize)
    requires
        j <= s.len(),
    ensures
        b == ws_begin(s@, j as int),
        b <= j,
{
    let mut b = j;
    while b > 0 && is_ws_char(s[b - 1])
        invariant
            b <= j <= s.len(),
            ws_begin(s@, b as int) == ws_begin(s@, j as int),
        decreases b,
    {
        b = b - 1;
    }
    b
}

/// `str::trim` on a character vector.
pub fn trim_chars(s: &Vec<char>) -> (r: Vec<char>)
    ensures
        r@ == trim(s@),
{
    let a = skip_ws(s, 0);
    let t = slice_chars(s, a, s.len());
    assert(t@ =~= trim_start(s@));
    let b = skip_ws_back(&t, t.len());
    slice_chars(&t, 0, b)
}

// ---------------------------------------------------------------------------
// Lines and joining
// ---------------------------------------------------------------------------
/// Index of the first `c` at or after `i`, or `s.len()`.
pub open spec fn find_char(s: Seq<char>, c: char, i: int) -> int
    decreases s.len() - i,
{
    if i >= s.len() {
        s.len() as int
    } else if i >= 0 && s[i] == c {
        i
    } else {
        find_char(s, c, i + 1)
    }
}

pub proof fn lemma_find_char(s: Seq<char>, c: char, i: int)
    requires
        0 <= i <= s.len(),
    ensures
        i <= find_char(s, c, i) <= s.len(),
        forall|k: int| i <= k < find_char(s, c, i) ==> #[trigger] s[k] != c,
        find_char(s, c, i) < s.len() ==> s[find_char(s, c, i)] == c,
    decreases s.len() - i,
{
    if i < s.len() && s[i] != c {
        lemma_find_char(s, c, i + 1);
    }
}

pub proof fn lemma_find_char_unique(s: Seq<char>, c: char, i: int, f: int)
    requires
        0 <= i <= f <= s.len(),
        forall|k: int| i <= k < f ==> #[trigger] s[k] != c,
        f == s.len() || s[f] == c,
    ensures
        find_char(s, c, i) == f,
    decreases f - i,
{
    if i < f {
        lemma_find_char_unique(s, c, i + 1, f);
    }
}

/// Removes one trailing carriage return.
pub open spec fn strip_cr(l: Seq<char>) -> Seq<char> {
    if l.len() > 0 && l.last() == '\r' {
        l.drop_last()
    } else {
        l
    }
}

/// `str::lines`: pieces ended by `\n` or `\r\n`; a final piece without a line
/// ending is kept as it is, and an empty final piece is dropped.
pub open spec fn lines(s: Seq<char>) -> Seq<Seq<char>>
    decreases s.len(),
{
    if s.len() == 0 {
        seq![]
    } else {
        let i = find_char(s, '\n', 0);
        if i >= s.len() || i < 0 {
            seq![s]
        } else {
            seq![strip_cr(s.take(i))] + lines(s.skip(i + 1))
        }
    }
}

/// The pieces of `s` between `\n` characters (one more piece than there are `\n`).
pub open spec fn split_nl(s: Seq<char>) -> Seq<Seq<char>>
    decreases s.len(),
{
    let i = find_char(s, '\n', 0);
    if i >= s.len() || i < 0 {
        seq![s]
    } else {
        seq![s.take(i)] + split_nl(s.skip(i + 1))
    }
}

/// Joins pieces with `sep` between consecutive pieces.
pub open spec fn join(ls: Seq<Seq<char>>, sep: Seq<char>) -> Seq<char>
    decreases ls.len(),
{
    if ls.len() == 0 {
        seq![]
    } else if ls.len() == 1 {
        ls[0]
    } else {
        join(ls.drop_last(), sep) + sep + ls.last()
    }
}

pub open spec fn nl() -> Seq<char> {
    seq!['\n']
}

/// The views of a vector of character vectors.
pub open spec fn views(v: Seq<Vec<char>>) -> Seq<Seq<char>> {
    v.map_values(|l: Vec<char>| l@)
}

/// `str::lines` on a character vector.
pub fn split_lines(s: &Vec<char>) -> (r: Vec<Vec<char>>)
    ensures
        views(r@) == lines(s@),
{
    let mut r: Vec<Vec<char>> = Vec::new();
    let mut cur: Vec<char> = Vec::new();
    let mut start: usize = 0;
    let mut i: usize = 0;
    assert(s@.skip(0) =~= s@);
    assert(views(r@) + lines(s@) =~= lines(s@));
    while i < s.len()
        invariant
            start <= i <= s.len(),
            cur@ == s@.subrange(start as int, i as int),
            forall|k: int| start <= k < i ==> #[trigger] s@[k] != '\n',
            lines(s@) == views(r@) + lines(s@.skip(start as int)),
        decreases s.len() - i,
    {
        if s[i] == '\n' {
            let ghost rest = s@.skip(start as int);
            proof {
                lemma_find_char_unique(rest, '\n', 0, (i - start) as int);
                assert(rest.take((i - start) as int) =~= cur@);
                assert(rest.skip((i - start) + 1) =~= s@.skip(i + 1));
            }
            let mut line = cur;
            if line.len() > 0 && line[line.len() - 1] == '\r' {
                line.pop();
            }
            proof {
                assert(line@ == strip_cr(cur@));
            }
            let ghost before = r@;
            r.push(line);
            proof {
                assert(views(r@) =~= views(before) + seq![strip_cr(cur@)]);
            }
            cur = Vec::new();
            start = i + 1;
        } else {
            cur.push(s[i]);
            assert(cur@ =~= s@.subrange(start as int, i + 1));
        }
        i = i + 1;
    }
    if start < s.len() {
        let ghost rest = s@.skip(start as int);
        proof {
            lemma_find_char_unique(rest, '\n', 0, rest.len() as int);
            assert(rest =~= cur@);
        }
        let ghost before = r@;
        r.push(cur);
        proof {
            assert(views(r@) =~= views(before) + seq![rest]);
        }
    } else {
        assert(s@.skip(start as int) =~= Seq::<char>::empty());
        assert(views(r@) + Seq::<Seq<char>>::empty() =~= views(r@));
    }
    r
}


/// Joins character vectors with `sep` between consecutive ones.
pub fn join_chars(v: &Vec<Vec<char>>, sep: &Vec<char>) -> (r: Vec<char>)
    ensures
        r@ == join(views(v@), sep@),
{
    let mut out: Vec<char> = Vec::new();
    let mut i: usize = 0;
    while i < v.len()
        invariant
            i <= v.len(),
            out@ == join(views(v@).take(i as int), sep@),
        decreases v.len() - i,
    {
        let ghost pre = views(v@).take(i as int);
        let ghost nxt = views(v@).take(i + 1);
        assert(nxt.drop_last() =~= pre);
        assert(nxt.last() == v@[i as int]@);
        if i > 0 {
            push_all(&mut out, sep);
        } else {
            assert(nxt =~= seq![v@[0]@]);
        }
        push_all(&mut out, &v[i]);
        i = i + 1;
    }
    assert(views(v@).take(v.len() as int) =~= views(v@));
    out
}

// ---------------------------------------------------------------------------
// Decimal numbers
// ---------------------------------------------------------------------------
pub open spec fn digit_char(d: nat) -> char {
    ((d % 10) + 48) as char
}

/// The decimal representation of `n`, without leading zeros.
pub open spec fn decimal(n: nat) -> Seq<char>
    decreases n,
{
    if n < 10 {
        seq![digit_char(n)]
    } else {
        decimal(n / 10).push(digit_char(n % 10))
    }
}

/// Value of a sequence of ASCII digits.
pub open spec fn digits_value(s: Seq<char>) -> nat
    decreases s.len(),
{
    if s.len() == 0 {
        0
    } else {
        digits_value(s.drop_last()) * 10 + ((s.last() as int - 48) as nat)
    }
}

pub open spec fn all_ascii_digits(s: Seq<char>) -> bool {
    forall|k: int| 0 <= k < s.len() ==> is_ascii_digit(#[trigger] s[k])
}

/// What `str::parse` accepts for an unsigned integer: an optional `+`, then
/// one or more ASCII digits; the value without a bound.
pub open spec fn unsigned_text_value(s: Seq<char>) -> Option<nat> {
    let body = if s.len() > 0 && s[0] == '+' {
        s.drop_first()
    } else {
        s
    };
    if body.len() > 0 && all_ascii_digits(body) {
        Some(digits_value(body))
    } else {
        None
    }
}

/// `str::parse::<u32>`.
pub open spec fn parse_u32_spec(s: Seq<char>) -> Option<u32> {
    match unsigned_text_value(s) {
        Some(v) => if v <= u32::MAX {
            Some(v as u32)
        } else {
            None
        },
        None => None,
    }
}

pub proof fn lemma_decimal_digits(n: nat)
    ensures
        all_ascii_digits(decimal(n)),
        decimal(n).len() > 0,
        digits_value(decimal(n)) == n,
    decreases n,
{
    if n < 10 {
        let d = decimal(n);
        assert(d.drop_last() =~= Seq::<char>::empty());
        assert(n % 10 == n);
        assert(d.last() == digit_char(n));
        assert((((n % 10) + 48) as char) as int == n + 48);
        assert(digits_value(d) == digits_value(d.drop_last()) * 10 + ((d.last() as int - 48) as nat));
        assert(digits_value(d.drop_last()) == 0);
    } else {
        lemma_decimal_digits(n / 10);
        let d = decimal(n);
        assert(d.drop_last() =~= decimal(n / 10));
        let x = n % 10;
        assert(x < 10);
        assert(d.last() == digit_char(x));
        assert((((x % 10) + 48) as char) as int == x + 48);
        assert(n == (n / 10) * 10 + x);
        assert(digits_value(d) == digits_value(d.drop_last()) * 10 + ((d.last() as int - 48) as nat));
        assert forall|k: int| 0 <= k < d.len() implies is_ascii_digit(#[trigger] d[k]) by {
            if k < d.len() - 1 {
                assert(d[k] == decimal(n / 10)[k]);
            }
        }
    }
}

pub proof fn lemma_digits_value_prefix(s: Seq<char>, k: int)
    requires
        all_ascii_digits(s),
        0 <= k <= s.len(),
    ensures
        digits_value(s.take(k)) <= digits_value(s),
    decreases s.len() - k,
{
    if k < s.len() {
        lemma_digits_value_prefix(s, k + 1);
        assert(s.take(k + 1).drop_last() =~= s.take(k));
        assert(is_ascii_digit(s[k]));
    } else {
        assert(s.take(k) =~= s);
    }
}

fn digit_to_char(d: u64) -> (c: char)
    requires
        d < 10,
    ensures
        c == digit_char(d as nat),
{
    if d == 0 { '0' } else if d == 1 { '1' } else if d == 2 { '2' } else if d == 3 { '3' }
    else if d == 4 { '4' } else if d == 5 { '5' } else if d == 6 { '6' } else if d == 7 { '7' }
    else if d == 8 { '8' } else { '9' }
}

/// The decimal text of `n`.
pub fn decimal_chars(n: u64) -> (r: Vec<char>)
    ensures
        r@ == decimal(n as nat),
    decreases n,
{
    if n < 10 {
        vec![digit_to_char(n)]
    } else {
        let mut r = decimal_chars(n / 10);
        r.push(digit_to_char(n % 10));
        r
    }
}

/// Reads an unsigned number as `str::parse` does, refusing values above `max`.
pub fn parse_unsigned(s: &Vec<char>, max: u64) -> (r: Option<u64>)
    ensures
        r matches Some(v) ==> unsigned_text_value(s@) == Some(v as nat) && v <= max,
        r is None ==> match unsigned_text_value(s@) {
            Some(v) => v > max,
            None => true,
        },
{
    let mut i: usize = 0;
    if s.len() > 0 && s[0] == '+' {
        i = 1;
    }
    let ghost body = if s@.len() > 0 && s@[0] == '+' {
        s@.drop_first()
    } else {
        s@
    };
    assert(body =~= s@.skip(i as int));
    assert(unsigned_text_value(s@) == (if body.len() > 0 && all_ascii_digits(body) {
        Some(digits_value(body))
    } else {
        None::<nat>
    }));
    if i >= s.len() {
        return None;
    }
    let mut acc: u64 = 0;
    let start = i;
    while i < s.len()
        invariant
            start <= i <= s.len(),
            start < s.len(),
            body == s@.skip(start as int),
            all_ascii_digits(body.take(i - start)),
            acc as nat == digits_value(body.take(i - start)),
            acc <= max,
            unsigned_text_value(s@) == (if body.len() > 0 && all_ascii_digits(body) {
                Some(digits_value(body))
            } else {
                None::<nat>
            }),
        decreases s.len() - i,
    {
        let c = s[i];
        if !('0' <= c && c <= '9') {
            assert(body[i - start] == c);
            assert(!is_ascii_digit(body[i - start]));
            assert(!all_ascii_digits(body));
            return None;
        }
        let d = (c as u64) - 48;
        let ghost t = body.take(i - start + 1);
        assert(t.drop_last() =~= body.take(i - start));
        assert(all_ascii_digits(t)) by {
            assert forall|k: int| 0 <= k < t.len() implies is_ascii_digit(#[trigger] t[k]) by {
                if k < t.len() - 1 {
                    assert(t[k] == body.take(i - start)[k]);
                }
            }
        }
        if d > max || acc > (max - d) / 10 {
            proof {
                assert(digits_value(t) == acc * 10 + d);
                assert(digits_value(t) > max) by (nonlinear_arith)
                    requires
                        digits_value(t) == acc * 10 + d,
                        d > max || acc > (max - d) / 10,
                        d <= 9,
                ;
                if all_ascii_digits(body) {
                    lemma_digits_value_prefix(body, i - start + 1);
                }
            }
            return None;
        }
        assert(acc * 10 + d <= max) by (nonlinear_arith)
            requires
                acc <= (max - d) / 10,
                d <= max,
        ;
        acc = acc * 10 + d;
        i = i + 1;
    }
    assert(body.take(i - start) =~= body);
    Some(acc)
}


pub open spec fn has_no_nl(s: Seq<char>) -> bool {
    forall|k: int| 0 <= k < s.len() ==> #[trigger] s[k] != '\n'
}

/// No line of text holds a line break.
pub proof fn lemma_lines_no_nl(s: Seq<char>)
    ensures
        forall|k: int| 0 <= k < lines(s).len() ==> has_no_nl(#[trigger] lines(s)[k]),
    decreases s.len(),
{
    if s.len() > 0 {
        lemma_find_char(s, '\n', 0);
        let i = find_char(s, '\n', 0);
        if i < s.len() {
            lemma_lines_no_nl(s.skip(i + 1));
            let a = s.take(i);
            assert forall|k: int| 0 <= k < strip_cr(a).len() implies #[trigger] strip_cr(a)[k] != '\n' by {
                assert(strip_cr(a)[k] == s[k]);
            }
            let ls = lines(s);
            assert forall|k: int| 0 <= k < ls.len() implies has_no_nl(#[trigger] ls[k]) by {
                if k > 0 {
                    assert(ls[k] == lines(s.skip(i + 1))[k - 1]);
                }
            }
        } else {
            assert(lines(s) == seq![s]);
            assert(has_no_nl(lines(s)[0]));
        }
    }
}

/// Lines without line breaks, none ending in `\r`, each followed by `\n`,
/// split back into themselves.
pub proof fn lemma_lines_join_nl(m: Seq<Seq<char>>)
    requires
        m.len() > 0,
        forall|i: int| 0 <= i < m.len() ==> has_no_nl(#[trigger] m[i]) && strip_cr(m[i]) == m[i],
    ensures
        lines(join(m, nl()) + nl()) == m,
    decreases m.len(),
{
    let a = m[0];
    assert(has_no_nl(a) && strip_cr(a) == a);
    if m.len() == 1 {
        assert(join(m, nl()) == a);
        assert(a + nl() =~= a + nl() + Seq::<char>::empty());
        lemma_lines_cons(a, Seq::<char>::empty());
        lemma_lines_empty();
        assert(seq![a] =~= m);
    } else {
        let r = m.skip(1);
        assert(m =~= seq![a] + r);
        lemma_join_cons(a, r, nl());
        assert(join(m, nl()) + nl() =~= a + nl() + (join(r, nl()) + nl()));
        lemma_lines_cons(a, join(r, nl()) + nl());
        assert forall|i: int| 0 <= i < r.len() implies has_no_nl(#[trigger] r[i]) && strip_cr(r[i]) == r[i] by {
            assert(r[i] == m[i + 1]);
        }
        lemma_lines_join_nl(r);
    }
}

/// Splitting `a` followed by a line break and more text.
pub proof fn lemma_lines_cons(a: Seq<char>, rest: Seq<char>)
    requires
        has_no_nl(a),
    ensures
        lines(a + nl() + rest) == seq![strip_cr(a)] + lines(rest),
{
    let s = a + nl() + rest;
    lemma_find_char_unique(s, '\n', 0, a.len() as int);
    assert(s.take(a.len() as int) =~= a);
    assert(s.skip(a.len() as int + 1) =~= rest);
}

/// A last line without a line break.
pub proof fn lemma_lines_last(a: Seq<char>)
    requires
        has_no_nl(a),
        a.len() > 0,
    ensures
        lines(a) == seq![a],
{
    lemma_find_char_unique(a, '\n', 0, a.len() as int);
}

/// Joining a first piece onto the rest.
pub proof fn lemma_join_cons(a: Seq<char>, r: Seq<Seq<char>>, sep: Seq<char>)
    requires
        r.len() > 0,
    ensures
        join(seq![a] + r, sep) == a + sep + join(r, sep),
    decreases r.len(),
{
    let m = seq![a] + r;
    if r.len() == 1 {
        assert(m.drop_last() =~= seq![a]);
        assert(m.last() == r[0]);
        assert(join(seq![a], sep) == a);
        assert(join(r, sep) == r[0]);
        assert(join(m, sep) =~= a + sep + join(r, sep));
    } else {
        assert(m.drop_last() =~= seq![a] + r.drop_last());
        lemma_join_cons(a, r.drop_last(), sep);
        assert(join(m, sep) =~= a + sep + join(r, sep));
    }
}

/// Lines that `str::lines` gives back unchanged once joined with `\n`: none
/// holds a line break, none but the last ends in `\r`, and the last is not empty.
pub open spec fn rejoinable(m: Seq<Seq<char>>) -> bool {
    &&& forall|i: int| 0 <= i < m.len() ==> has_no_nl(#[trigger] m[i])
    &&& forall|i: int| 0 <= i < m.len() - 1 ==> strip_cr(#[trigger] m[i]) == m[i]
    &&& m.len() > 0 ==> m.last().len() > 0
}

/// The first line of text whose first line break lies inside its first `n`
/// characters is shorter than `n`.
proof fn lemma_lines_first_short(s: Seq<char>, n: int)
    requires
        0 <= n <= s.len(),
        find_char(s, '\n', 0) < n,
    ensures
        lines(s).len() > 0,
        lines(s)[0].len() < n,
{
    lemma_find_char(s, '\n', 0);
}

proof fn lemma_lines_join_break_in_first(m: Seq<Seq<char>>)
    requires
        m.len() > 0,
        !has_no_nl(m[0]),
    ensures
        lines(join(m, nl())) != m,
        !rejoinable(m),
{
    let a = m[0];
    let r = m.skip(1);
    assert(m =~= seq![a] + r);
    let k = choose|k: int| 0 <= k < a.len() && a[k] == '\n';
    let s = join(m, nl());
    if r.len() > 0 {
        lemma_join_cons(a, r, nl());
    }
    assert(s.take(a.len() as int) =~= a);
    lemma_find_char(s, '\n', 0);
    if find_char(s, '\n', 0) >= a.len() {
        assert(s[k] == a[k]);
    }
    lemma_lines_first_short(s, a.len() as int);
    assert(lines(s)[0] != m[0]);
}

proof fn lemma_lines_join_single(m: Seq<Seq<char>>)
    requires
        m.len() == 1,
        has_no_nl(m[0]),
    ensures
        (lines(join(m, nl())) == m) <==> rejoinable(m),
{
    let a = m[0];
    assert(join(m, nl()) == a);
    assert(m.last() == a);
    if a.len() > 0 {
        lemma_lines_last(a);
        assert(seq![a] =~= m);
        assert(rejoinable(m)) by {
            assert forall|i: int| 0 <= i < m.len() implies has_no_nl(#[trigger] m[i]) by {
                assert(i == 0);
            }
        }
    } else {
        lemma_lines_empty();
        assert(lines(join(m, nl())).len() == 0);
    }
}

proof fn lemma_lines_join_step(m: Seq<Seq<char>>)
    requires
        m.len() >= 2,
        has_no_nl(m[0]),
        (lines(join(m.skip(1), nl())) == m.skip(1)) <==> rejoinable(m.skip(1)),
    ensures
        (lines(join(m, nl())) == m) <==> rejoinable(m),
{
    let a = m[0];
    let r = m.skip(1);
    assert(m =~= seq![a] + r);
    lemma_join_cons(a, r, nl());
    lemma_lines_cons(a, join(r, nl()));
    let l = lines(join(m, nl()));
    assert(l == seq![strip_cr(a)] + lines(join(r, nl())));
    if l == m {
        assert(lines(join(r, nl())) =~= l.skip(1));
        assert forall|i: int| 0 <= i < m.len() - 1 implies strip_cr(#[trigger] m[i]) == m[i] by {
            if i > 0 {
                assert(m[i] == r[i - 1]);
            }
        }
        assert forall|i: int| 0 <= i < m.len() implies has_no_nl(#[trigger] m[i]) by {
            if i > 0 {
                assert(m[i] == r[i - 1]);
            }
        }
        assert(m.last() == r.last());
    }
    if rejoinable(m) {
        assert forall|i: int| 0 <= i < r.len() implies has_no_nl(#[trigger] r[i]) by {
            assert(r[i] == m[i + 1]);
        }
        assert forall|i: int| 0 <= i < r.len() - 1 implies strip_cr(#[trigger] r[i]) == r[i] by {
            assert(r[i] == m[i + 1]);
        }
        assert(m.last() == r.last());
        assert(strip_cr(m[0]) == m[0]);
        assert(l =~= m);
    }
}

/// `str::lines` of lines joined with `\n` gives them back exactly when they are rejoinable.
pub proof fn lemma_lines_join(m: Seq<Seq<char>>)
    ensures
        (lines(join(m, nl())) == m) <==> rejoinable(m),
    decreases m.len(),
{
    if m.len() == 0 {
        lemma_lines_empty();
        assert(join(m, nl()) =~= Seq::<char>::empty());
        assert(lines(join(m, nl())) =~= m);
    } else if !has_no_nl(m[0]) {
        lemma_lines_join_break_in_first(m);
    } else if m.len() == 1 {
        lemma_lines_join_single(m);
    } else {
        lemma_lines_join(m.skip(1));
        lemma_lines_join_step(m);
    }
}

/// Text that ends with a line break splits into its own lines followed by those of what comes after.
pub proof fn lemma_lines_append(a: Seq<char>, b: Seq<char>)
    requires
        a.len() == 0 || a.last() == '\n',
    ensures
        lines(a + b) == lines(a) + lines(b),
    decreases a.len(),
{
    if a.len() == 0 {
        assert(a + b =~= b);
        lemma_lines_empty();
        assert(lines(a) + lines(b) =~= lines(b));
    } else {
        let s = a + b;
        lemma_find_char(a, '\n', 0);
        let i = find_char(a, '\n', 0);
        if i >= a.len() {
            assert(a[a.len() - 1] == '\n');
        }
        assert(i < a.len());
        assert forall|k: int| 0 <= k < i implies #[trigger] s[k] != '\n' by {
            assert(s[k] == a[k]);
        }
        lemma_find_char_unique(s, '\n', 0, i);
        assert(s.take(i) =~= a.take(i));
        assert(s.skip(i + 1) =~= a.skip(i + 1) + b);
        lemma_lines_append(a.skip(i + 1), b);
        assert(lines(a + b) =~= lines(a) + lines(b));
    }
}

pub proof fn lemma_lines_empty()
    ensures
        lines(Seq::<char>::empty()) == Seq::<Seq<char>>::empty(),
{
}

/// Trimming a blank followed by trimmed text.
pub proof fn lemma_trim_space_prefix(x: Seq<char>)
    requires
        is_trimmed(x),
    ensures
        trim(seq![' '] + x) == x,
{
    let s = seq![' '] + x;
    if x.len() == 0 {
        lemma_ws_end_unique(s, 0, 1);
        assert(s.skip(1) =~= x);
        lemma_trim_trimmed(x);
    } else {
        lemma_ws_end_unique(s, 0, 1);
        assert(s.skip(1) =~= x);
        lemma_trim_trimmed(x);
    }
}

} // verus!
