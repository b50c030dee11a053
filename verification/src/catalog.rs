//! Catalogue queries: the filters and full-text search of the file list,
//! ordering, ratings, tag and album names, and the plan for reconciling
//! files that went missing.

use vstd::prelude::*;
use vstd::string::StringExecFns;

use crate::text::{chars_of, decimal, push_char, push_decimal, push_signed, push_str, signed_decimal, str_eq};

verus! {

// ── characters ──────────────────────────────────────────────────────────

/// Whether a character beyond ASCII is alphabetic or numeric in Unicode
/// (the Alphabetic property or a general category of numbers), as std's
/// tables say.
pub uninterp spec fn non_ascii_alphanumeric(c: char) -> bool;

/// Whether a character is alphabetic or numeric in Unicode: among ASCII
/// characters, the digits and the Latin letters.
pub open spec fn is_alphanumeric_char(c: char) -> bool {
    if c <= '\u{7f}' {
        '0' <= c <= '9' || 'A' <= c <= 'Z' || 'a' <= c <= 'z'
    } else {
        non_ascii_alphanumeric(c)
    }
}

/// Whether a character has the Unicode White_Space property: the controls
/// U+0009 to U+000D, space, next line (U+0085), no-break space (U+00A0),
/// ogham space mark (U+1680), the spaces U+2000 to U+200A, line and
/// paragraph separators (U+2028, U+2029), narrow no-break space (U+202F),
/// medium mathematical space (U+205F) and ideographic space (U+3000).
pub open spec fn is_whitespace_char(c: char) -> bool {
    ||| '\u{9}' <= c <= '\u{d}'
    ||| c == ' ' || c == '\u{85}' || c == '\u{a0}' || c == '\u{1680}'
    ||| '\u{2000}' <= c <= '\u{200a}'
    ||| c == '\u{2028}' || c == '\u{2029}' || c == '\u{202f}' || c == '\u{205f}' || c == '\u{3000}'
}

/// `char::is_alphanumeric`: `is_alphabetic() || is_numeric()`. For an ASCII
/// character both are decided in std by the ranges `a..=z`, `A..=Z` and
/// `0..=9`; beyond ASCII by Unicode tables, which are named here, not
/// restated.
#[verifier::external_body]
fn char_is_alphanumeric(c: char) -> (r: bool)
    ensures
        c <= '\u{7f}' ==> r == ('0' <= c <= '9' || 'A' <= c <= 'Z' || 'a' <= c <= 'z'),
        '\u{7f}' < c ==> r == non_ascii_alphanumeric(c),
{
    c.is_alphanumeric()
}

/// Whether a character is whitespace, as `char::is_whitespace` decides.
pub(crate) fn char_is_whitespace(c: char) -> (r: bool)
    ensures
        r == is_whitespace_char(c),
{
    ('\u{9}' <= c && c <= '\u{d}') || c == ' ' || c == '\u{85}' || c == '\u{a0}' || c == '\u{1680}' || (
    '\u{2000}' <= c && c <= '\u{200a}') || c == '\u{2028}' || c == '\u{2029}' || c == '\u{202f}' || c
        == '\u{205f}' || c == '\u{3000}'
}

// ── trimming ────────────────────────────────────────────────────────────

/// Number of leading whitespace characters.
pub open spec fn lead_ws(s: Seq<char>) -> nat
    decreases s.len(),
{
    if s.len() > 0 && is_whitespace_char(s[0]) {
        1 + lead_ws(s.drop_first())
    } else {
        0
    }
}

/// Number of trailing whitespace characters.
pub open spec fn trail_ws(s: Seq<char>) -> nat
    decreases s.len(),
{
    if s.len() > 0 && is_whitespace_char(s.last()) {
        1 + trail_ws(s.drop_last())
    } else {
        0
    }
}

proof fn lemma_lead_ws(s: Seq<char>)
    ensures
        lead_ws(s) <= s.len(),
        forall|i: int| 0 <= i < lead_ws(s) ==> #[trigger] is_whitespace_char(s[i]),
        lead_ws(s) < s.len() ==> !is_whitespace_char(s[lead_ws(s) as int]),
    decreases s.len(),
{
    if s.len() > 0 && is_whitespace_char(s[0]) {
        lemma_lead_ws(s.drop_first());
        assert forall|i: int| 0 <= i < lead_ws(s) implies #[trigger] is_whitespace_char(s[i]) by {
            if i > 0 {
                assert(s[i] == s.drop_first()[i - 1]);
            }
        }
        if lead_ws(s) < s.len() {
            assert(s[lead_ws(s) as int] == s.drop_first()[lead_ws(s.drop_first()) as int]);
        }
    }
}

proof fn lemma_trail_ws(s: Seq<char>)
    ensures
        trail_ws(s) <= s.len(),
        forall|i: int| s.len() - trail_ws(s) <= i < s.len() ==> #[trigger] is_whitespace_char(s[i]),
        trail_ws(s) < s.len() ==> !is_whitespace_char(s[s.len() - trail_ws(s) - 1]),
    decreases s.len(),
{
    if s.len() > 0 && is_whitespace_char(s.last()) {
        lemma_trail_ws(s.drop_last());
        assert forall|i: int| s.len() - trail_ws(s) <= i < s.len() implies #[trigger] is_whitespace_char(s[i]) by {
            if i < s.len() - 1 {
                assert(s[i] == s.drop_last()[i]);
            }
        }
        if trail_ws(s) < s.len() {
            assert(s[s.len() - trail_ws(s) - 1] == s.drop_last()[s.drop_last().len() - trail_ws(s.drop_last()) - 1]);
        }
    }
}

/// The text without leading and trailing whitespace (`str::trim`).
pub open spec fn trim_spec(s: Seq<char>) -> Seq<char> {
    if lead_ws(s) == s.len() {
        Seq::empty()
    } else {
        s.subrange(lead_ws(s) as int, s.len() - trail_ws(s))
    }
}

/// `s` without leading and trailing whitespace.
pub fn trim(s: &str) -> (r: Vec<char>)
    ensures
        r@ == trim_spec(s@),
{
    let v = chars_of(s);
    proof {
        lemma_lead_ws(v@);
        lemma_trail_ws(v@);
    }
    let mut a: usize = 0;
    while a < v.len() && char_is_whitespace(v[a])
        invariant
            v@ == s@,
            a <= v@.len(),
            lead_ws(v@) >= a,
            forall|i: int| 0 <= i < a ==> #[trigger] is_whitespace_char(v@[i]),
        decreases v@.len() - a,
    {
        proof {
            lemma_lead_ws(v@);
            if lead_ws(v@) == a {
                assert(!is_whitespace_char(v@[a as int]));
            }
        }
        a = a + 1;
    }
    proof {
        lemma_lead_ws(v@);
        if a < v@.len() {
            assert(!is_whitespace_char(v@[a as int]));
            if lead_ws(v@) > a {
                assert(is_whitespace_char(v@[a as int]));
            }
        }
        assert(lead_ws(v@) == a);
    }
    let mut r: Vec<char> = Vec::new();
    if a == v.len() {
        return r;
    }
    let mut b: usize = v.len();
    while b > a && char_is_whitespace(v[b - 1])
        invariant
            v@ == s@,
            a < v@.len(),
            a <= b <= v@.len(),
            lead_ws(v@) == a,
            !is_whitespace_char(v@[a as int]),
            trail_ws(v@) >= v@.len() - b,
            forall|i: int| b <= i < v@.len() ==> #[trigger] is_whitespace_char(v@[i]),
        decreases b,
    {
        proof {
            lemma_trail_ws(v@);
            if trail_ws(v@) == v@.len() - b {
                assert(!is_whitespace_char(v@[b - 1]));
            }
        }
        b = b - 1;
    }
    proof {
        lemma_trail_ws(v@);
        assert(b > a);
        assert(!is_whitespace_char(v@[b - 1]));
        if trail_ws(v@) > v@.len() - b {
            assert(is_whitespace_char(v@[b - 1]));
        }
        assert(trail_ws(v@) == v@.len() - b);
    }
    let mut i = a;
    while i < b
        invariant
            a <= i <= b <= v@.len(),
            r@ == v@.subrange(a as int, i as int),
        decreases b - i,
    {
        r.push(v[i]);
        proof {
            assert(v@.subrange(a as int, i + 1) =~= v@.subrange(a as int, i as int).push(v@[i as int]));
        }
        i = i + 1;
    }
    r
}

// ── full-text search ────────────────────────────────────────────────────

/// Scanning the phrase: the finished words and the word being read. A word
/// is a run of non-whitespace characters; only its alphanumeric characters
/// are kept, and a word left with none is dropped.
pub open spec fn fts_state(s: Seq<char>) -> (Seq<Seq<char>>, Seq<char>)
    decreases s.len(),
{
    if s.len() == 0 {
        (Seq::empty(), Seq::empty())
    } else {
        let (done, cur) = fts_state(s.drop_last());
        let c = s.last();
        if is_whitespace_char(c) {
            if cur.len() > 0 {
                (done.push(cur), Seq::empty())
            } else {
                (done, cur)
            }
        } else if is_alphanumeric_char(c) {
            (done, cur.push(c))
        } else {
            (done, cur)
        }
    }
}

/// The words of the phrase, cleaned.
pub open spec fn fts_words(s: Seq<char>) -> Seq<Seq<char>> {
    let (done, cur) = fts_state(s);
    if cur.len() > 0 {
        done.push(cur)
    } else {
        done
    }
}

/// One search term: the word quoted, as a prefix query.
pub open spec fn fts_term(w: Seq<char>) -> Seq<char> {
    seq!['"'] + w + seq!['"', '*']
}

/// The terms joined by single spaces.
pub open spec fn join_terms(ws: Seq<Seq<char>>) -> Seq<char>
    decreases ws.len(),
{
    if ws.len() == 0 {
        Seq::empty()
    } else if ws.len() == 1 {
        fts_term(ws[0])
    } else {
        join_terms(ws.drop_last()) + seq![' '] + fts_term(ws.last())
    }
}

/// The FTS5 query for a user's phrase.
pub open spec fn fts_spec(s: Seq<char>) -> Seq<char> {
    join_terms(fts_words(s))
}

/// Appends one term to the query text.
fn push_term(out: &mut String, cur: &Vec<char>, done: Ghost<Seq<Seq<char>>>)
    requires
        old(out)@ == join_terms(done@),
        old(out)@.len() == 0 <==> done@.len() == 0,
    ensures
        final(out)@ == join_terms(done@.push(cur@)),
{
    let ghost d = done@;
    if out.as_str().unicode_len() > 0 {
        push_char(out, ' ');
    }
    push_char(out, '"');
    let mut i: usize = 0;
    let ghost base = out@;
    while i < cur.len()
        invariant
            i <= cur@.len(),
            out@ == base + cur@.subrange(0, i as int),
        decreases cur@.len() - i,
    {
        push_char(out, cur[i]);
        proof {
            assert(cur@.subrange(0, i + 1) =~= cur@.subrange(0, i as int).push(cur@[i as int]));
        }
        i = i + 1;
    }
    push_char(out, '"');
    push_char(out, '*');
    proof {
        let dd = d.push(cur@);
        assert(dd.drop_last() =~= d);
        assert(cur@.subrange(0, cur@.len() as int) =~= cur@);
        if d.len() == 0 {
            assert(out@ =~= fts_term(cur@));
        } else {
            assert(out@ =~= join_terms(d) + seq![' '] + fts_term(cur@));
        }
    }
}

/// Turns a user's phrase into a safe FTS5 prefix query: each word is kept
/// with its alphanumeric characters only, quoted and followed by `*`.
pub fn fts_query(input: &str) -> (q: String)
    ensures
        q@ == fts_spec(input@),
{
    let v = chars_of(input);
    let mut out = String::new();
    let mut cur: Vec<char> = Vec::new();
    let ghost mut done: Seq<Seq<char>> = Seq::empty();
    let mut i: usize = 0;
    while i < v.len()
        invariant
            v@ == input@,
            i <= v@.len(),
            (done, cur@) == fts_state(v@.subrange(0, i as int)),
            out@ == join_terms(done),
            out@.len() == 0 <==> done.len() == 0,
        decreases v@.len() - i,
    {
        let c = v[i];
        proof {
            assert(v@.subrange(0, i + 1).drop_last() =~= v@.subrange(0, i as int));
        }
        if char_is_whitespace(c) {
            if cur.len() > 0 {
                push_term(&mut out, &cur, Ghost(done));
                proof {
                    done = done.push(cur@);
                }
                cur = Vec::new();
            }
        } else if char_is_alphanumeric(c) {
            cur.push(c);
        }
        i = i + 1;
    }
    proof {
        assert(v@.subrange(0, v@.len() as int) =~= v@);
    }
    if cur.len() > 0 {
        push_term(&mut out, &cur, Ghost(done));
    }
    out
}


/// The alphanumeric characters of a word, in order.
pub open spec fn alnum_chars(w: Seq<char>) -> Seq<char> {
    w.filter(|c: char| is_alphanumeric_char(c))
}

/// A word: no whitespace in it.
pub open spec fn no_whitespace(w: Seq<char>) -> bool {
    forall|i: int| 0 <= i < w.len() ==> !is_whitespace_char(#[trigger] w[i])
}

proof fn lemma_state_after_gap(a: Seq<char>, c: char)
    requires
        is_whitespace_char(c),
    ensures
        fts_state(a.push(c)) == (fts_words(a), Seq::<char>::empty()),
{
    assert(a.push(c).drop_last() =~= a);
}

proof fn lemma_state_append(p: Seq<char>, b: Seq<char>)
    requires
        fts_state(p).1.len() == 0,
    ensures
        fts_state(p + b) == (fts_state(p).0 + fts_state(b).0, fts_state(b).1),
    decreases b.len(),
{
    if b.len() == 0 {
        assert(p + b =~= p);
        assert(fts_state(p).0 + Seq::<Seq<char>>::empty() =~= fts_state(p).0);
    } else {
        let b0 = b.drop_last();
        lemma_state_append(p, b0);
        assert((p + b).drop_last() =~= p + b0);
        assert((p + b).last() == b.last());
        let d = fts_state(p).0;
        let (d0, c0) = fts_state(b0);
        assert((d + d0).push(c0) =~= d + d0.push(c0));
    }
}

proof fn lemma_state_word(w: Seq<char>)
    requires
        no_whitespace(w),
    ensures
        fts_state(w) == (Seq::<Seq<char>>::empty(), alnum_chars(w)),
    decreases w.len(),
{
    reveal(Seq::filter);
    if w.len() > 0 {
        let w0 = w.drop_last();
        assert(no_whitespace(w0)) by {
            assert forall|i: int| 0 <= i < w0.len() implies !is_whitespace_char(#[trigger] w0[i]) by {
                assert(w0[i] == w[i]);
            }
        }
        lemma_state_word(w0);
        assert(!is_whitespace_char(w[w.len() - 1]));
    }
}

proof fn lemma_join_terms(x: Seq<Seq<char>>, y: Seq<Seq<char>>)
    requires
        x.len() > 0,
        y.len() > 0,
    ensures
        join_terms(x + y) == join_terms(x) + seq![' '] + join_terms(y),
    decreases y.len(),
{
    if y.len() == 1 {
        assert((x + y).drop_last() =~= x);
    } else {
        let y0 = y.drop_last();
        lemma_join_terms(x, y0);
        assert((x + y).drop_last() =~= x + y0);
        assert(join_terms(x + y) =~= join_terms(x) + seq![' '] + join_terms(y));
    }
}

proof fn lemma_join_terms_empty(ws: Seq<Seq<char>>)
    ensures
        join_terms(ws).len() == 0 <==> ws.len() == 0,
{
    if ws.len() > 1 {
        assert(join_terms(ws).len() >= fts_term(ws.last()).len());
    }
}

/// One word of a search phrase (no whitespace in it) gives one prefix term,
/// `"w"*`, made of its alphanumeric characters (digits as well as letters),
/// when it has any; a word without any gives nothing.
pub proof fn lemma_fts_word(w: Seq<char>)
    requires
        no_whitespace(w),
    ensures
        alnum_chars(w).len() > 0 ==> fts_words(w) == seq![alnum_chars(w)] && fts_spec(w) == seq!['"']
            + alnum_chars(w) + seq!['"', '*'],
        alnum_chars(w).len() == 0 ==> fts_words(w).len() == 0 && fts_spec(w).len() == 0,
{
    lemma_state_word(w);
    let ws = fts_words(w);
    if alnum_chars(w).len() > 0 {
        assert(ws =~= seq![alnum_chars(w)]);
        assert(ws.len() == 1);
    } else {
        assert(ws =~= Seq::<Seq<char>>::empty());
    }
}

proof fn lemma_filter_all(w: Seq<char>)
    requires
        forall|i: int| 0 <= i < w.len() ==> is_alphanumeric_char(#[trigger] w[i]),
    ensures
        alnum_chars(w) == w,
    decreases w.len(),
{
    reveal(Seq::filter);
    if w.len() > 0 {
        let w0 = w.drop_last();
        assert forall|i: int| 0 <= i < w0.len() implies is_alphanumeric_char(#[trigger] w0[i]) by {
            assert(w0[i] == w[i]);
        }
        lemma_filter_all(w0);
        assert(is_alphanumeric_char(w[w.len() - 1]));
        assert(w0.push(w.last()) =~= w);
    }
}

/// A word of ASCII letters and digits only (digits alone too) is kept
/// whole: it becomes the single term `"w"*`.
pub proof fn lemma_fts_plain_word(w: Seq<char>)
    requires
        w.len() > 0,
        forall|i: int| 0 <= i < w.len() ==> ('0' <= #[trigger] w[i] <= '9' || 'A' <= w[i] <= 'Z' || 'a' <= w[i] <= 'z'),
    ensures
        fts_words(w) == seq![w],
        fts_spec(w) == seq!['"'] + w + seq!['"', '*'],
{
    assert forall|i: int| 0 <= i < w.len() implies !is_whitespace_char(#[trigger] w[i]) by {}
    assert forall|i: int| 0 <= i < w.len() implies is_alphanumeric_char(#[trigger] w[i]) by {}
    lemma_filter_all(w);
    lemma_fts_word(w);
}

/// Whitespace separates words: the terms of `a`, a whitespace character
/// (a space, a tab, a line break or any other Unicode whitespace),
/// then `b` are the terms of `a` followed by those of `b`, and the query is
/// the two queries joined by one space (or whichever is not empty).
pub proof fn lemma_fts_split(a: Seq<char>, c: char, b: Seq<char>)
    requires
        c == ' ' || c == '\t' || c == '\n' || c == '\r' || is_whitespace_char(c),
    ensures
        fts_words(a + seq![c] + b) == fts_words(a) + fts_words(b),
        fts_spec(a + seq![c] + b) == if fts_spec(a).len() == 0 {
            fts_spec(b)
        } else if fts_spec(b).len() == 0 {
            fts_spec(a)
        } else {
            fts_spec(a) + seq![' '] + fts_spec(b)
        },
{
    assert(is_whitespace_char(c));
    let p = a.push(c);
    assert(a + seq![c] + b =~= p + b);
    lemma_state_after_gap(a, c);
    lemma_state_append(p, b);
    let (d, cur) = fts_state(b);
    if cur.len() > 0 {
        assert((fts_words(a) + d).push(cur) =~= fts_words(a) + d.push(cur));
    }
    let x = fts_words(a);
    let y = fts_words(b);
    lemma_join_terms_empty(x);
    lemma_join_terms_empty(y);
    if x.len() == 0 {
        assert(x + y =~= y);
    } else if y.len() == 0 {
        assert(x + y =~= x);
    } else {
        lemma_join_terms(x, y);
    }
}

// ── the file list query ─────────────────────────────────────────────────

/// Filters of the file list.
#[derive(Clone, Debug)]
pub struct ListQuery {
    /// Folder whose files are listed (relative to the library; "" is its root).
    pub parent: Option<String>,
    /// With `parent`: include its subfolders.
    pub recursive: bool,
    /// Full-text phrase matched against name, path and tags.
    pub query: Option<String>,
    /// 0 photos, 1 videos.
    pub kind: Option<i64>,
    pub rating_min: i64,
    pub tag_id: Option<i64>,
    pub album_id: Option<i64>,
    pub date_from: Option<i64>,
    pub date_to: Option<i64>,
    pub sort: String,
}

impl Default for ListQuery {
    fn default() -> (q: ListQuery)
        ensures
            q.parent is None,
            !q.recursive,
            q.query is None,
            q.kind is None,
            q.rating_min == 0,
            q.tag_id is None,
            q.album_id is None,
            q.date_from is None,
            q.date_to is None,
            q.sort@.len() == 0,
    {
        ListQuery {
            parent: None,
            recursive: false,
            query: None,
            kind: None,
            rating_min: 0,
            tag_id: None,
            album_id: None,
            date_from: None,
            date_to: None,
            sort: String::new(),
        }
    }
}

/// A value bound to a placeholder of the SQL text.
#[derive(Clone, Debug)]
pub enum SqlParam {
    Text(String),
    Int(i64),
}

/// What a bound value is.
pub enum SqlValue {
    Text(Seq<char>),
    Int(i64),
}

pub open spec fn param_view(p: SqlParam) -> SqlValue {
    match p {
        SqlParam::Text(s) => SqlValue::Text(s@),
        SqlParam::Int(i) => SqlValue::Int(i),
    }
}

pub open spec fn params_view(ps: Seq<SqlParam>) -> Seq<SqlValue> {
    ps.map_values(|p: SqlParam| param_view(p))
}

/// The placeholder of the next parameter, `?n`.
pub open spec fn next_ph(ps: Seq<SqlValue>) -> Seq<char> {
    seq!['?'] + crate::text::decimal((ps.len() + 1) as nat)
}

/// A condition with one placeholder between `before` and `after`.
pub open spec fn with_param(
    acc: (Seq<char>, Seq<SqlValue>),
    before: Seq<char>,
    after: Seq<char>,
    v: SqlValue,
) -> (Seq<char>, Seq<SqlValue>) {
    (acc.0 + before + next_ph(acc.1) + after, acc.1.push(v))
}

/// The folder condition including subfolders: the folder itself, or any
/// path in the range `parent + "/"` (inclusive) to `parent + "0"`, where
/// '0' follows '/' in ASCII.
pub open spec fn with_subtree(acc: (Seq<char>, Seq<SqlValue>), parent: Seq<char>) -> (Seq<char>, Seq<SqlValue>) {
    let i = next_ph(acc.1);
    (
        acc.0 + " AND (f.parent = "@ + i + " OR (f.parent >= "@ + i + " || '/' AND f.parent < "@ + i
            + " || '0'))"@,
        acc.1.push(SqlValue::Text(parent)),
    )
}

pub open spec fn opt_view(o: Option<String>) -> Option<Seq<char>> {
    match o {
        Some(s) => Some(s@),
        None => None,
    }
}

/// The folder condition.
pub open spec fn where_parent(q: ListQuery) -> (Seq<char>, Seq<SqlValue>) {
    let a0: (Seq<char>, Seq<SqlValue>) = ("f.status = 0"@, Seq::empty());
    match opt_view(q.parent) {
        Some(p) => if q.recursive {
            if p.len() > 0 {
                with_subtree(a0, p)
            } else {
                a0
            }
        } else {
            with_param(a0, " AND f.parent = "@, ""@, SqlValue::Text(p))
        },
        None => a0,
    }
}

/// Then the kind and the minimal rating.
pub open spec fn where_rating(q: ListQuery) -> (Seq<char>, Seq<SqlValue>) {
    let a1 = where_parent(q);
    let a2 = match q.kind {
        Some(k) => with_param(a1, " AND f.kind = "@, ""@, SqlValue::Int(k)),
        None => a1,
    };
    if q.rating_min > 0 {
        with_param(a2, " AND f.rating >= "@, ""@, SqlValue::Int(q.rating_min))
    } else {
        a2
    }
}

/// Then the tag and the album.
pub open spec fn where_album(q: ListQuery) -> (Seq<char>, Seq<SqlValue>) {
    let a3 = where_rating(q);
    let a4 = match q.tag_id {
        Some(t) => with_param(
            a3,
            " AND EXISTS (SELECT 1 FROM file_tags ft WHERE ft.file_id = f.id AND ft.tag_id = "@,
            ")"@,
            SqlValue::Int(t),
        ),
        None => a3,
    };
    match q.album_id {
        Some(al) => with_param(
            a4,
            " AND EXISTS (SELECT 1 FROM album_files af WHERE af.file_id = f.id AND af.album_id = "@,
            ")"@,
            SqlValue::Int(al),
        ),
        None => a4,
    }
}

/// Then the date range.
pub open spec fn where_dates(q: ListQuery) -> (Seq<char>, Seq<SqlValue>) {
    let a5 = where_album(q);
    let a6 = match q.date_from {
        Some(d) => with_param(a5, " AND f.taken_at >= "@, ""@, SqlValue::Int(d)),
        None => a5,
    };
    match q.date_to {
        Some(d) => with_param(a6, " AND f.taken_at < "@, ""@, SqlValue::Int(d)),
        None => a6,
    }
}

/// The WHERE condition of the file list for a query, and its parameters:
/// then the full-text phrase, when anything of it is left to search.
pub open spec fn where_spec(q: ListQuery) -> (Seq<char>, Seq<SqlValue>) {
    let a7 = where_dates(q);
    match opt_view(q.query) {
        Some(phrase) => if fts_spec(phrase).len() > 0 {
            with_param(
                a7,
                " AND f.id IN (SELECT rowid FROM files_fts WHERE files_fts MATCH "@,
                ")"@,
                SqlValue::Text(fts_spec(phrase)),
            )
        } else {
            a7
        },
        None => a7,
    }
}

/// Adds a condition with one placeholder.
fn add_param(sql: &mut String, params: &mut Vec<SqlParam>, before: &str, after: &str, v: SqlParam)
    requires
        old(params)@.len() + 1 <= u64::MAX,
    ensures
        final(params)@.len() == old(params)@.len() + 1,
        (final(sql)@, params_view(final(params)@)) == with_param(
            (old(sql)@, params_view(old(params)@)),
            before@,
            after@,
            param_view(v),
        ),
{
    let ghost pv = params_view(params@);
    let n = params.len() as u64 + 1;
    push_str(sql, before);
    push_char(sql, '?');
    push_decimal(sql, n);
    push_str(sql, after);
    params.push(v);
    proof {
        assert(sql@ =~= old(sql)@ + before@ + next_ph(pv) + after@);
        assert(params_view(params@) =~= pv.push(param_view(v)));
    }
}

/// The WHERE condition (over the alias `f` of `files`) and its parameters
/// for the filters of a query.
pub fn build_where(q: &ListQuery) -> (r: (String, Vec<SqlParam>))
    ensures
        (r.0@, params_view(r.1@)) == where_spec(*q),
{
    let mut sql = String::new();
    push_str(&mut sql, "f.status = 0");
    let mut params: Vec<SqlParam> = Vec::new();
    proof {
        assert(params_view(params@) =~= Seq::<SqlValue>::empty());
        assert(sql@ =~= "f.status = 0"@);
    }
    match &q.parent {
        Some(parent) => {
            if q.recursive {
                if parent.as_str().unicode_len() > 0 {
                    let ghost pv = params_view(params@);
                    let ghost old_sql = sql@;
                    let n: u64 = params.len() as u64 + 1;
                    push_str(&mut sql, " AND (f.parent = ");
                    push_char(&mut sql, '?');
                    push_decimal(&mut sql, n);
                    push_str(&mut sql, " OR (f.parent >= ");
                    push_char(&mut sql, '?');
                    push_decimal(&mut sql, n);
                    push_str(&mut sql, " || '/' AND f.parent < ");
                    push_char(&mut sql, '?');
                    push_decimal(&mut sql, n);
                    push_str(&mut sql, " || '0'))");
                    params.push(SqlParam::Text(parent.clone()));
                    proof {
                        let i = next_ph(pv);
                        assert(sql@ =~= old_sql + " AND (f.parent = "@ + i + " OR (f.parent >= "@ + i
                            + " || '/' AND f.parent < "@ + i + " || '0'))"@);
                        assert(params_view(params@) =~= pv.push(SqlValue::Text(parent@)));
                        assert(old_sql == "f.status = 0"@);
                        assert(pv == Seq::<SqlValue>::empty());
                        assert((sql@, params_view(params@)) == with_subtree(("f.status = 0"@, Seq::<SqlValue>::empty()), parent@));
                    }
                }
            } else {
                add_param(&mut sql, &mut params, " AND f.parent = ", "", SqlParam::Text(parent.clone()));
                proof {
                    assert((sql@, params_view(params@)) == with_param(("f.status = 0"@, Seq::<SqlValue>::empty()), " AND f.parent = "@, ""@, SqlValue::Text(parent@)));
                }
            }
        },
        None => {},
    }
    proof {
        assert((sql@, params_view(params@)) == where_parent(*q));
    }
    match q.kind {
        Some(k) => add_param(&mut sql, &mut params, " AND f.kind = ", "", SqlParam::Int(k)),
        None => {},
    }
    if q.rating_min > 0 {
        add_param(&mut sql, &mut params, " AND f.rating >= ", "", SqlParam::Int(q.rating_min));
    }
    proof {
        assert((sql@, params_view(params@)) == where_rating(*q));
    }
    match q.tag_id {
        Some(t) => add_param(
            &mut sql,
            &mut params,
            " AND EXISTS (SELECT 1 FROM file_tags ft WHERE ft.file_id = f.id AND ft.tag_id = ",
            ")",
            SqlParam::Int(t),
        ),
        None => {},
    }
    match q.album_id {
        Some(al) => add_param(
            &mut sql,
            &mut params,
            " AND EXISTS (SELECT 1 FROM album_files af WHERE af.file_id = f.id AND af.album_id = ",
            ")",
            SqlParam::Int(al),
        ),
        None => {},
    }
    proof {
        assert((sql@, params_view(params@)) == where_album(*q));
    }
    match q.date_from {
        Some(d) => add_param(&mut sql, &mut params, " AND f.taken_at >= ", "", SqlParam::Int(d)),
        None => {},
    }
    match q.date_to {
        Some(d) => add_param(&mut sql, &mut params, " AND f.taken_at < ", "", SqlParam::Int(d)),
        None => {},
    }
    proof {
        assert((sql@, params_view(params@)) == where_dates(*q));
    }
    match &q.query {
        Some(phrase) => {
            let fts = fts_query(phrase.as_str());
            if fts.as_str().unicode_len() > 0 {
                add_param(
                    &mut sql,
                    &mut params,
                    " AND f.id IN (SELECT rowid FROM files_fts WHERE files_fts MATCH ",
                    ")",
                    SqlParam::Text(fts),
                );
            }
        },
        None => {},
    }
    (sql, params)
}

/// The ORDER BY clause for a sort name: "date_asc", "name", "size_desc",
/// and newest first for anything else.
pub open spec fn order_spec(sort: Seq<char>) -> Seq<char> {
    if sort == "date_asc"@ {
        "f.taken_at IS NULL, f.taken_at ASC, f.name COLLATE NOCASE"@
    } else if sort == "name"@ {
        "f.name COLLATE NOCASE"@
    } else if sort == "size_desc"@ {
        "f.size DESC"@
    } else {
        "f.taken_at IS NULL, f.taken_at DESC, f.name COLLATE NOCASE"@
    }
}

/// The ORDER BY clause (over the alias `f`) for a sort name.
pub fn order_clause(sort: &str) -> (r: &'static str)
    ensures
        r@ == order_spec(sort@),
{
    if str_eq(sort, "date_asc") {
        "f.taken_at IS NULL, f.taken_at ASC, f.name COLLATE NOCASE"
    } else if str_eq(sort, "name") {
        "f.name COLLATE NOCASE"
    } else if str_eq(sort, "size_desc") {
        "f.size DESC"
    } else {
        "f.taken_at IS NULL, f.taken_at DESC, f.name COLLATE NOCASE"
    }
}

/// The month histogram of the file list: the query's filters, dated files
/// only, months newest first unless sorted by "date_asc".
pub fn timeline_query(q: &ListQuery) -> (r: (String, Vec<SqlParam>))
    ensures
        r.0@ == "SELECT strftime('%Y-%m', f.taken_at, 'unixepoch') ym, count(*) FROM files f WHERE "@
            + where_spec(*q).0 + " AND f.taken_at IS NOT NULL GROUP BY ym ORDER BY ym "@ + (if q.sort@
            == "date_asc"@ {
            "ASC"@
        } else {
            "DESC"@
        }),
        params_view(r.1@) == where_spec(*q).1,
{
    let (where_sql, params) = build_where(q);
    let mut sql = String::new();
    push_str(&mut sql, "SELECT strftime('%Y-%m', f.taken_at, 'unixepoch') ym, count(*) FROM files f WHERE ");
    push_str(&mut sql, where_sql.as_str());
    push_str(&mut sql, " AND f.taken_at IS NOT NULL GROUP BY ym ORDER BY ym ");
    if str_eq(q.sort.as_str(), "date_asc") {
        push_str(&mut sql, "ASC");
    } else {
        push_str(&mut sql, "DESC");
    }
    (sql, params)
}

/// A query's condition never binds more than nine parameters.
proof fn lemma_where_params(q: ListQuery)
    ensures
        where_spec(q).1.len() <= 9,
{
}

/// The text of a filter's condition, given the placeholder it binds.
pub type Clause = spec_fn(Seq<char>) -> Seq<char>;

/// The placeholder of the `k`-th parameter, `?k`.
pub open spec fn placeholder(k: nat) -> Seq<char> {
    seq!['?'] + decimal(k)
}

/// A condition whose placeholder stands between two fixed texts.
pub open spec fn plain_clause(before: Seq<char>, after: Seq<char>) -> Clause {
    |ph: Seq<char>| before + ph + after
}

/// The folder condition including subfolders; it uses its placeholder
/// three times.
pub open spec fn subtree_clause() -> Clause {
    |ph: Seq<char>|
        " AND (f.parent = "@ + ph + " OR (f.parent >= "@ + ph + " || '/' AND f.parent < "@ + ph
            + " || '0'))"@
}

/// One filter of a query: its condition and the value it binds.
pub type Filter = (Clause, SqlValue);

/// An optional filter.
pub open spec fn when_set(present: bool, f: Filter) -> Seq<Filter> {
    if present {
        seq![f]
    } else {
        Seq::empty()
    }
}

/// The folder filter, when the query names a folder (and, with subfolders,
/// a non-empty one).
pub open spec fn folder_filters(q: ListQuery) -> Seq<Filter> {
    match opt_view(q.parent) {
        Some(p) => if q.recursive {
            when_set(p.len() > 0, (subtree_clause(), SqlValue::Text(p)))
        } else {
            seq![(plain_clause(" AND f.parent = "@, ""@), SqlValue::Text(p))]
        },
        None => Seq::empty(),
    }
}

/// A filter on an optional integer.
pub open spec fn int_filters(v: Option<i64>, before: Seq<char>, after: Seq<char>) -> Seq<Filter> {
    match v {
        Some(x) => seq![(plain_clause(before, after), SqlValue::Int(x))],
        None => Seq::empty(),
    }
}

pub open spec fn kind_filters(q: ListQuery) -> Seq<Filter> {
    int_filters(q.kind, " AND f.kind = "@, ""@)
}

pub open spec fn rating_filters(q: ListQuery) -> Seq<Filter> {
    when_set(q.rating_min > 0, (plain_clause(" AND f.rating >= "@, ""@), SqlValue::Int(q.rating_min)))
}

pub open spec fn tag_before() -> Seq<char> {
    " AND EXISTS (SELECT 1 FROM file_tags ft WHERE ft.file_id = f.id AND ft.tag_id = "@
}

pub open spec fn album_before() -> Seq<char> {
    " AND EXISTS (SELECT 1 FROM album_files af WHERE af.file_id = f.id AND af.album_id = "@
}

pub open spec fn text_before() -> Seq<char> {
    " AND f.id IN (SELECT rowid FROM files_fts WHERE files_fts MATCH "@
}

pub open spec fn tag_filters(q: ListQuery) -> Seq<Filter> {
    int_filters(q.tag_id, tag_before(), ")"@)
}

pub open spec fn album_filters(q: ListQuery) -> Seq<Filter> {
    int_filters(q.album_id, album_before(), ")"@)
}

pub open spec fn from_filters(q: ListQuery) -> Seq<Filter> {
    int_filters(q.date_from, " AND f.taken_at >= "@, ""@)
}

pub open spec fn to_filters(q: ListQuery) -> Seq<Filter> {
    int_filters(q.date_to, " AND f.taken_at < "@, ""@)
}

/// The full-text filter, when anything of the phrase is left to search.
pub open spec fn text_filters(q: ListQuery) -> Seq<Filter> {
    match opt_view(q.query) {
        Some(phrase) => when_set(
            fts_spec(phrase).len() > 0,
            (plain_clause(text_before(), ")"@), SqlValue::Text(fts_spec(phrase))),
        ),
        None => Seq::empty(),
    }
}

/// The filters a query sets, in the order its condition lists them:
/// folder, kind, minimal rating, tag, album, first and last date, and
/// the full-text phrase.
pub open spec fn present_filters(q: ListQuery) -> Seq<Filter> {
    folder_filters(q) + kind_filters(q) + rating_filters(q) + tag_filters(q) + album_filters(q) + from_filters(q)
        + to_filters(q) + text_filters(q)
}

/// The conditions of the filters, the `k`-th of them with the placeholder
/// `?k`.
pub open spec fn numbered_clauses(fs: Seq<Filter>) -> Seq<char>
    decreases fs.len(),
{
    if fs.len() == 0 {
        Seq::empty()
    } else {
        numbered_clauses(fs.drop_last()) + (fs.last().0)(placeholder(fs.len()))
    }
}

/// The values the filters bind, in order.
pub open spec fn filter_values(fs: Seq<Filter>) -> Seq<SqlValue> {
    fs.map_values(|f: Filter| f.1)
}

/// The condition built from a list of filters.
pub open spec fn condition_of(fs: Seq<Filter>) -> (Seq<char>, Seq<SqlValue>) {
    ("f.status = 0"@ + numbered_clauses(fs), filter_values(fs))
}

/// Adding at most one filter to the condition.
proof fn lemma_condition_step(fs: Seq<Filter>, opt: Seq<Filter>, before: Seq<char>, after: Seq<char>)
    requires
        opt.len() <= 1,
        opt.len() == 1 ==> opt[0].0 == plain_clause(before, after),
    ensures
        condition_of(fs + opt) == (if opt.len() == 1 {
            with_param(condition_of(fs), before, after, opt[0].1)
        } else {
            condition_of(fs)
        }),
{
    if opt.len() == 1 {
        let f = opt[0];
        let g = fs + opt;
        assert(g =~= fs.push(f));
        assert(g.drop_last() =~= fs);
        assert(filter_values(g) =~= filter_values(fs).push(f.1));
        assert(filter_values(fs).len() == fs.len());
        assert(("f.status = 0"@ + numbered_clauses(g)) =~= ("f.status = 0"@ + numbered_clauses(fs)) + before
            + next_ph(filter_values(fs)) + after);
    } else {
        assert(fs + opt =~= fs);
    }
}

proof fn lemma_folder_condition(q: ListQuery)
    ensures
        where_parent(q) == condition_of(folder_filters(q)),
{
    let e = Seq::<Filter>::empty();
    assert(condition_of(e) =~= ("f.status = 0"@, Seq::<SqlValue>::empty())) by {
        assert(numbered_clauses(e) =~= Seq::<char>::empty());
        assert(filter_values(e) =~= Seq::<SqlValue>::empty());
    }
    let folder = folder_filters(q);
    match opt_view(q.parent) {
        Some(p) => {
            if q.recursive {
                if p.len() > 0 {
                    let f: Filter = (subtree_clause(), SqlValue::Text(p));
                    assert(folder =~= seq![f]);
                    assert(seq![f].drop_last() =~= e);
                    assert(filter_values(seq![f]) =~= seq![SqlValue::Text(p)]);
                    assert(condition_of(folder) =~= with_subtree(condition_of(e), p));
                } else {
                    assert(folder =~= e);
                }
            } else {
                lemma_condition_step(e, folder, " AND f.parent = "@, ""@);
                assert(e + folder =~= folder);
            }
        },
        None => {
            assert(folder =~= e);
        },
    }
}

proof fn lemma_rating_condition(q: ListQuery)
    ensures
        where_rating(q) == condition_of(folder_filters(q) + kind_filters(q) + rating_filters(q)),
{
    lemma_folder_condition(q);
    lemma_condition_step(folder_filters(q), kind_filters(q), " AND f.kind = "@, ""@);
    lemma_condition_step(folder_filters(q) + kind_filters(q), rating_filters(q), " AND f.rating >= "@, ""@);
}

proof fn lemma_album_condition(q: ListQuery)
    ensures
        where_album(q) == condition_of(
            folder_filters(q) + kind_filters(q) + rating_filters(q) + tag_filters(q) + album_filters(q),
        ),
{
    let fs = folder_filters(q) + kind_filters(q) + rating_filters(q);
    lemma_rating_condition(q);
    lemma_condition_step(fs, tag_filters(q), tag_before(), ")"@);
    lemma_condition_step(fs + tag_filters(q), album_filters(q), album_before(), ")"@);
}

proof fn lemma_dates_condition(q: ListQuery)
    ensures
        where_dates(q) == condition_of(
            folder_filters(q) + kind_filters(q) + rating_filters(q) + tag_filters(q) + album_filters(q)
                + from_filters(q) + to_filters(q),
        ),
{
    let fs = folder_filters(q) + kind_filters(q) + rating_filters(q) + tag_filters(q) + album_filters(q);
    lemma_album_condition(q);
    lemma_condition_step(fs, from_filters(q), " AND f.taken_at >= "@, ""@);
    lemma_condition_step(fs + from_filters(q), to_filters(q), " AND f.taken_at < "@, ""@);
}

/// Placeholders follow the filters: the condition of a query starts with
/// `f.status = 0`, then holds the condition of each filter the query sets,
/// in the order folder, kind, minimal rating, tag, album, first and last
/// date, full-text phrase, the `k`-th with the placeholder `?k`; and the
/// `k`-th parameter is the value of the `k`-th filter.
pub proof fn lemma_placeholders_follow_filters(q: ListQuery)
    ensures
        where_spec(q) == condition_of(present_filters(q)),
{
    let fs = folder_filters(q) + kind_filters(q) + rating_filters(q) + tag_filters(q) + album_filters(q)
        + from_filters(q) + to_filters(q);
    lemma_dates_condition(q);
    lemma_condition_step(fs, text_filters(q), text_before(), ")"@);
}

/// The number of files the query's filters select.
pub fn count_query(q: &ListQuery) -> (r: (String, Vec<SqlParam>))
    ensures
        r.0@ == "SELECT count(*) FROM files f WHERE "@ + where_spec(*q).0,
        params_view(r.1@) == where_spec(*q).1,
{
    let (where_sql, params) = build_where(q);
    let mut sql = String::new();
    push_str(&mut sql, "SELECT count(*) FROM files f WHERE ");
    push_str(&mut sql, where_sql.as_str());
    (sql, params)
}

/// The columns of a page of the file list.
pub open spec fn list_columns() -> Seq<char> {
    "SELECT f.id, f.name, f.kind, f.blurhash, CASE WHEN f.thumb = 1 THEN lower(hex(f.hash)) END, f.duration, f.rating, f.protected_album FROM files f WHERE "@
}

/// A page of the file list: the files the query's filters select, in its
/// sort order, `limit` of them from position `offset`; the two bounds are
/// bound after the filters' own parameters.
pub fn list_query(q: &ListQuery, offset: i64, limit: i64) -> (r: (String, Vec<SqlParam>))
    ensures
        ({
            let w = where_spec(*q);
            &&& r.0@ == list_columns() + w.0 + " ORDER BY "@ + order_spec(q.sort@) + " LIMIT ?"@ + decimal(
                (w.1.len() + 2) as nat,
            ) + " OFFSET ?"@ + decimal((w.1.len() + 1) as nat)
            &&& params_view(r.1@) == w.1.push(SqlValue::Int(offset)).push(SqlValue::Int(limit))
        }),
{
    let (where_sql, mut params) = build_where(q);
    proof {
        lemma_where_params(*q);
    }
    let n = params.len() as u64;
    let ghost pv = params_view(params@);
    let mut sql = String::new();
    push_str(
        &mut sql,
        "SELECT f.id, f.name, f.kind, f.blurhash, CASE WHEN f.thumb = 1 THEN lower(hex(f.hash)) END, f.duration, f.rating, f.protected_album FROM files f WHERE ",
    );
    push_str(&mut sql, where_sql.as_str());
    push_str(&mut sql, " ORDER BY ");
    push_str(&mut sql, order_clause(q.sort.as_str()));
    push_str(&mut sql, " LIMIT ?");
    push_decimal(&mut sql, n + 2);
    push_str(&mut sql, " OFFSET ?");
    push_decimal(&mut sql, n + 1);
    params.push(SqlParam::Int(offset));
    params.push(SqlParam::Int(limit));
    proof {
        assert(params_view(params@) =~= pv.push(SqlValue::Int(offset)).push(SqlValue::Int(limit)));
    }
    (sql, params)
}

/// Whether a listed file is shown locked: it belongs to a protected album
/// that is not unlocked in this session.
pub fn is_locked(protected_album: Option<i64>, unlocked: &[i64]) -> (r: bool)
    ensures
        r == (protected_album matches Some(a) && !unlocked@.contains(a)),
{
    match protected_album {
        Some(a) => {
            let mut i: usize = 0;
            while i < unlocked.len()
                invariant
                    protected_album == Some(a),
                    i <= unlocked@.len(),
                    forall|j: int| 0 <= j < i ==> unlocked@[j] != a,
                decreases unlocked@.len() - i,
            {
                if unlocked[i] == a {
                    proof {
                        assert(unlocked@[i as int] == a);
                    }
                    return false;
                }
                i = i + 1;
            }
            proof {
                assert(!unlocked@.contains(a));
            }
            true
        },
        None => false,
    }
}

/// Whether an album may be deleted: not while it holds encrypted files,
/// which would stay encrypted with no key left to open them.
pub fn album_deletion(protected_files: i64) -> (r: Result<(), String>)
    ensures
        protected_files > 0 ==> (r matches Err(e) && e@ == "Album zawiera "@ + signed_decimal(protected_files as int)
            + " zaszyfrowanych plików — najpierw je wyjmij (odszyfruj)"@),
        protected_files <= 0 ==> r is Ok,
{
    if protected_files > 0 {
        let mut e = String::new();
        push_str(&mut e, "Album zawiera ");
        push_signed(&mut e, protected_files);
        push_str(&mut e, " zaszyfrowanych plików — najpierw je wyjmij (odszyfruj)");
        proof {
            assert(e@ =~= "Album zawiera "@ + signed_decimal(protected_files as int)
                + " zaszyfrowanych plików — najpierw je wyjmij (odszyfruj)"@);
        }
        Err(e)
    } else {
        Ok(())
    }
}

// ── ratings, tags, albums ───────────────────────────────────────────────

/// A rating kept within 0..=5.
pub fn clamp_rating(rating: i64) -> (r: i64)
    ensures
        r == (if rating < 0 {
            0
        } else if rating > 5 {
            5
        } else {
            rating
        }),
{
    if rating < 0 {
        0
    } else if rating > 5 {
        5
    } else {
        rating
    }
}

/// The name a tag is stored under: trimmed; nothing when only whitespace.
pub fn tag_name(name: &str) -> (r: Option<String>)
    ensures
        trim_spec(name@).len() == 0 ==> r is None,
        trim_spec(name@).len() > 0 ==> (r matches Some(t) && t@ == trim_spec(name@)),
{
    let t = trim(name);
    if t.len() == 0 {
        None
    } else {
        Some(crate::text::string_of(&t, 0, t.len()))
    }
}

/// Characters not allowed in a folder name.
pub open spec fn forbidden_char(c: char) -> bool {
    c == '/' || c == '\\' || c == ':' || c == '*' || c == '?' || c == '"' || c == '<' || c == '>' || c == '|'
}

pub open spec fn sanitize_spec(s: Seq<char>) -> Seq<char> {
    s.map_values(|c: char| if forbidden_char(c) { '_' } else { c })
}

/// Replaces each character not allowed in a folder name with '_'.
pub fn sanitize_component(name: &str) -> (r: String)
    ensures
        r@ == sanitize_spec(name@),
{
    let v = chars_of(name);
    let mut r = String::new();
    let mut i: usize = 0;
    while i < v.len()
        invariant
            v@ == name@,
            i <= v@.len(),
            r@ == sanitize_spec(v@.subrange(0, i as int)),
        decreases v@.len() - i,
    {
        let c = v[i];
        let bad = c == '/' || c == '\\' || c == ':' || c == '*' || c == '?' || c == '"' || c == '<' || c == '>'
            || c == '|';
        push_char(&mut r, if bad { '_' } else { c });
        proof {
            assert(sanitize_spec(v@.subrange(0, i + 1)) =~= sanitize_spec(v@.subrange(0, i as int)).push(
                if forbidden_char(c) { '_' } else { c },
            ));
        }
        i = i + 1;
    }
    proof {
        assert(v@.subrange(0, v@.len() as int) =~= v@);
    }
    r
}

/// A new album: its trimmed name and, for a folder album, the folder
/// `Albumy/<name>` in the library.
pub struct AlbumPlan {
    pub name: String,
    pub folder_path: Option<String>,
}

/// What creating an album of type `album_type` named `name` records; an
/// error when the name is only whitespace.
pub fn album_plan(name: &str, album_type: &str) -> (r: Result<AlbumPlan, String>)
    ensures
        trim_spec(name@).len() == 0 ==> (r matches Err(e) && e@ == "Podaj nazwę albumu"@),
        trim_spec(name@).len() > 0 ==> (r matches Ok(p) && p.name@ == trim_spec(name@) && (if album_type@
            == "folder"@ {
            p.folder_path matches Some(f) && f@ == "Albumy/"@ + sanitize_spec(trim_spec(name@))
        } else {
            p.folder_path is None
        })),
{
    let t = trim(name);
    if t.len() == 0 {
        return Err(String::from_str("Podaj nazwę albumu"));
    }
    let trimmed = crate::text::string_of(&t, 0, t.len());
    let folder_path = if str_eq(album_type, "folder") {
        let mut f = String::new();
        push_str(&mut f, "Albumy/");
        let clean = sanitize_component(trimmed.as_str());
        push_str(&mut f, clean.as_str());
        Some(f)
    } else {
        None
    };
    Ok(AlbumPlan { name: trimmed, folder_path })
}

/// An album as listed.
#[derive(Clone, Debug)]
pub struct Album {
    pub id: i64,
    pub name: String,
    pub album_type: String,
    pub folder_path: Option<String>,
    pub count: i64,
    /// Thumbnail hash of the file added last.
    pub cover: Option<String>,
}

/// Library statistics.
#[derive(Clone, Debug)]
pub struct LibraryStats {
    pub files: i64,
    pub photos: i64,
    pub videos: i64,
    pub total_size: i64,
    pub missing: i64,
    pub protected: i64,
    /// Year, files, bytes.
    pub by_year: Vec<(String, i64, i64)>,
}

// ── reconciling missing files ───────────────────────────────────────────

/// What becomes of a missing file.
#[derive(Clone, Copy, Debug, PartialEq, Eq, Structural)]
pub enum Reconcile {
    /// Its content lives on in `new_id`: tags and albums move there, and its
    /// rating too when it has one; then the missing entry is deleted.
    Merge { old_id: i64, new_id: i64, carry_rating: bool },
    /// Its content is gone: the entry is deleted.
    Remove { old_id: i64 },
}

/// One missing file: its id, the surviving file with the same content (if
/// any) and its rating.
#[derive(Clone, Copy, Debug, PartialEq, Eq, Structural)]
pub struct MissingFile {
    pub id: i64,
    pub survivor: Option<i64>,
    pub rating: i64,
}

pub open spec fn reconcile_of(m: MissingFile) -> Reconcile {
    match m.survivor {
        Some(n) => Reconcile::Merge { old_id: m.id, new_id: n, carry_rating: m.rating > 0 },
        None => Reconcile::Remove { old_id: m.id },
    }
}

pub open spec fn merged_count(ms: Seq<MissingFile>) -> nat
    decreases ms.len(),
{
    if ms.len() == 0 {
        0
    } else {
        merged_count(ms.drop_last()) + if ms.last().survivor is Some {
            1nat
        } else {
            0nat
        }
    }
}

/// The plan for the missing files, in order, with the number merged and
/// the number removed.
pub fn reconcile_plan(missing: &[MissingFile]) -> (r: (Vec<Reconcile>, u64, u64))
    ensures
        r.0@ == missing@.map_values(|m: MissingFile| reconcile_of(m)),
        r.1 == merged_count(missing@),
        r.1 + r.2 == missing@.len(),
        r.0@.len() == missing@.len(),
        forall|i: int| 0 <= i < missing@.len() ==> match #[trigger] r.0@[i] {
            Reconcile::Merge { old_id, new_id, carry_rating } => {
                &&& missing@[i].survivor == Some(new_id)
                &&& old_id == missing@[i].id
                &&& carry_rating == (missing@[i].rating > 0)
            },
            Reconcile::Remove { old_id } => missing@[i].survivor is None && old_id == missing@[i].id,
        },
{
    let mut out: Vec<Reconcile> = Vec::new();
    let mut merged: u64 = 0;
    let mut removed: u64 = 0;
    let mut i: usize = 0;
    while i < missing.len()
        invariant
            i <= missing@.len(),
            out@ == missing@.subrange(0, i as int).map_values(|m: MissingFile| reconcile_of(m)),
            merged == merged_count(missing@.subrange(0, i as int)),
            merged + removed == i,
        decreases missing@.len() - i,
    {
        let m = missing[i];
        let act = match m.survivor {
            Some(n) => {
                merged = merged + 1;
                Reconcile::Merge { old_id: m.id, new_id: n, carry_rating: m.rating > 0 }
            },
            None => {
                removed = removed + 1;
                Reconcile::Remove { old_id: m.id }
            },
        };
        out.push(act);
        proof {
            let pre = missing@.subrange(0, i + 1);
            assert(pre.drop_last() =~= missing@.subrange(0, i as int));
            assert(out@ =~= pre.map_values(|m: MissingFile| reconcile_of(m)));
        }
        i = i + 1;
    }
    proof {
        assert(missing@.subrange(0, missing@.len() as int) =~= missing@);
        assert forall|i: int| 0 <= i < missing@.len() implies match #[trigger] out@[i] {
            Reconcile::Merge { old_id, new_id, carry_rating } => {
                &&& missing@[i].survivor == Some(new_id)
                &&& old_id == missing@[i].id
                &&& carry_rating == (missing@[i].rating > 0)
            },
            Reconcile::Remove { old_id } => missing@[i].survivor is None && old_id == missing@[i].id,
        } by {
            lemma_reconcile_decision(missing@[i]);
        }
    }
    (out, merged, removed)
}

/// What becomes of one missing file: it is merged into its surviving copy
/// exactly when it has one, and then its rating moves to that copy exactly
/// when the rating is positive (one star or more); otherwise it is removed.
/// The entry concerned is always the missing file's own.
pub proof fn lemma_reconcile_decision(m: MissingFile)
    ensures
        (reconcile_of(m) is Merge) <==> (m.survivor is Some),
        match reconcile_of(m) {
            Reconcile::Merge { old_id, new_id, carry_rating } => {
                &&& m.survivor == Some(new_id)
                &&& old_id == m.id
                &&& carry_rating <==> m.rating >= 1
            },
            Reconcile::Remove { old_id } => old_id == m.id,
        },
{
}

/// The counts of a plan: the merged files are exactly those with a
/// surviving copy.
pub proof fn lemma_merged_counts_survivors(ms: Seq<MissingFile>)
    ensures
        merged_count(ms) == ms.filter(|m: MissingFile| m.survivor is Some).len(),
    decreases ms.len(),
{
    reveal(Seq::filter);
    if ms.len() > 0 {
        lemma_merged_counts_survivors(ms.drop_last());
    }
}

} // verus!
