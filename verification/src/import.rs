//! Importing from external folders and cards: destination templates, the
//! plan of what would be imported, collision-free destination names, the
//! progress of a scan and the decisions on the waiting room.

use vstd::prelude::*;
use vstd::string::StringExecFns;

use crate::seqs::{chars_lt, lemma_chars_lt_asym, lemma_chars_lt_irrefl, lemma_chars_lt_total, lemma_chars_lt_trans, less_chars};
use crate::calendar::{civil_date, date_text};
use crate::text::{
    chars_eq, chars_of, decimal, join_path, join_spec, last_index_of, push_char, push_decimal, push_str, rfind_char,
    str_eq, string_of,
};

verus! {

// ── replacing and trimming ──────────────────────────────────────────────

/// Every occurrence of `pat` in `s`, scanning from the left without
/// overlaps, replaced by `rep` (`str::replace`, for a non-empty pattern).
pub open spec fn replace_spec(s: Seq<char>, pat: Seq<char>, rep: Seq<char>) -> Seq<char>
    decreases s.len(),
{
    if pat.len() == 0 || s.len() < pat.len() {
        s
    } else if s.subrange(0, pat.len() as int) == pat {
        rep + replace_spec(s.subrange(pat.len() as int, s.len() as int), pat, rep)
    } else {
        seq![s[0]] + replace_spec(s.drop_first(), pat, rep)
    }
}

fn starts_at(s: &Vec<char>, i: usize, pat: &Vec<char>) -> (r: bool)
    requires
        i <= s@.len(),
    ensures
        r == (i + pat@.len() <= s@.len() && s@.subrange(i as int, i + pat@.len()) == pat@),
{
    let n = s.len();
    if pat.len() > n - i {
        return false;
    }
    let mut k: usize = 0;
    while k < pat.len()
        invariant
            n == s@.len(),
            i + pat@.len() <= s@.len(),
            k <= pat@.len(),
            forall|j: int| 0 <= j < k ==> s@[i + j] == pat@[j],
        decreases pat@.len() - k,
    {
        if s[i + k] != pat[k] {
            proof {
                assert(s@.subrange(i as int, i + pat@.len())[k as int] != pat@[k as int]);
            }
            return false;
        }
        k = k + 1;
    }
    proof {
        assert(s@.subrange(i as int, i + pat@.len()) =~= pat@);
    }
    true
}

/// `s` with every occurrence of `pat` replaced by `rep`.
pub fn replace_all(s: &Vec<char>, pat: &Vec<char>, rep: &Vec<char>) -> (r: Vec<char>)
    ensures
        r@ == replace_spec(s@, pat@, rep@),
{
    let mut out: Vec<char> = Vec::new();
    if pat.len() == 0 {
        let mut k: usize = 0;
        while k < s.len()
            invariant
                k <= s@.len(),
                out@ == s@.subrange(0, k as int),
            decreases s@.len() - k,
        {
            out.push(s[k]);
            proof {
                assert(s@.subrange(0, k + 1) =~= s@.subrange(0, k as int).push(s@[k as int]));
            }
            k = k + 1;
        }
        proof {
            assert(s@.subrange(0, s@.len() as int) =~= s@);
        }
        return out;
    }
    let mut i: usize = 0;
    proof {
        assert(s@.subrange(0, s@.len() as int) =~= s@);
        assert(out@ + s@ =~= s@);
        assert(out@ + replace_spec(s@, pat@, rep@) =~= replace_spec(s@, pat@, rep@));
    }
    while i < s.len()
        invariant
            pat@.len() > 0,
            i <= s@.len(),
            out@ + replace_spec(s@.subrange(i as int, s@.len() as int), pat@, rep@) == replace_spec(s@, pat@, rep@),
        decreases s@.len() - i,
    {
        let ghost rest = s@.subrange(i as int, s@.len() as int);
        if starts_at(s, i, pat) {
            let ghost old_out = out@;
            let mut k: usize = 0;
            while k < rep.len()
                invariant
                    k <= rep@.len(),
                    out@ == old_out + rep@.subrange(0, k as int),
                decreases rep@.len() - k,
            {
                out.push(rep[k]);
                proof {
                    assert(rep@.subrange(0, k + 1) =~= rep@.subrange(0, k as int).push(rep@[k as int]));
                }
                k = k + 1;
            }
            proof {
                assert(rep@.subrange(0, rep@.len() as int) =~= rep@);
                assert(rest.subrange(0, pat@.len() as int) =~= s@.subrange(i as int, i + pat@.len()));
                assert(rest.subrange(pat@.len() as int, rest.len() as int) =~= s@.subrange(i + pat@.len(), s@.len() as int));
                assert(old_out + replace_spec(rest, pat@, rep@) == replace_spec(s@, pat@, rep@));
                assert(replace_spec(rest, pat@, rep@) == rep@ + replace_spec(
                    s@.subrange(i + pat@.len(), s@.len() as int),
                    pat@,
                    rep@,
                ));
                assert(old_out + (rep@ + replace_spec(s@.subrange(i + pat@.len(), s@.len() as int), pat@, rep@))
                    =~= out@ + replace_spec(s@.subrange(i + pat@.len(), s@.len() as int), pat@, rep@));
            }
            i = i + pat.len();
        } else {
            let ghost old_out = out@;
            out.push(s[i]);
            proof {
                if rest.len() >= pat@.len() {
                    assert(rest.subrange(0, pat@.len() as int) =~= s@.subrange(i as int, i + pat@.len()));
                }
                assert(rest.drop_first() =~= s@.subrange(i + 1, s@.len() as int));
                assert(replace_spec(rest, pat@, rep@) == seq![s@[i as int]] + replace_spec(rest.drop_first(), pat@, rep@));
                assert(old_out + (seq![s@[i as int]] + replace_spec(rest.drop_first(), pat@, rep@)) =~= out@
                    + replace_spec(rest.drop_first(), pat@, rep@));
            }
            i = i + 1;
        }
    }
    proof {
        assert(s@.subrange(s@.len() as int, s@.len() as int) =~= Seq::<char>::empty());
        assert(out@ + Seq::<char>::empty() =~= out@);
    }
    out
}

/// Number of leading `c`.
pub open spec fn lead_count(s: Seq<char>, c: char) -> nat
    decreases s.len(),
{
    if s.len() > 0 && s[0] == c {
        1 + lead_count(s.drop_first(), c)
    } else {
        0
    }
}

/// Number of trailing `c`.
pub open spec fn trail_count(s: Seq<char>, c: char) -> nat
    decreases s.len(),
{
    if s.len() > 0 && s.last() == c {
        1 + trail_count(s.drop_last(), c)
    } else {
        0
    }
}

proof fn lemma_lead_count(s: Seq<char>, c: char)
    ensures
        lead_count(s, c) <= s.len(),
        forall|i: int| 0 <= i < lead_count(s, c) ==> s[i] == c,
        lead_count(s, c) < s.len() ==> s[lead_count(s, c) as int] != c,
    decreases s.len(),
{
    if s.len() > 0 && s[0] == c {
        lemma_lead_count(s.drop_first(), c);
        assert forall|i: int| 0 <= i < lead_count(s, c) implies s[i] == c by {
            if i > 0 {
                assert(s[i] == s.drop_first()[i - 1]);
            }
        }
    }
}

proof fn lemma_trail_count(s: Seq<char>, c: char)
    ensures
        trail_count(s, c) <= s.len(),
        forall|i: int| s.len() - trail_count(s, c) <= i < s.len() ==> s[i] == c,
        trail_count(s, c) < s.len() ==> s[s.len() - trail_count(s, c) - 1] != c,
    decreases s.len(),
{
    if s.len() > 0 && s.last() == c {
        lemma_trail_count(s.drop_last(), c);
        assert forall|i: int| s.len() - trail_count(s, c) <= i < s.len() implies s[i] == c by {
            if i < s.len() - 1 {
                assert(s[i] == s.drop_last()[i]);
            }
        }
    }
}

/// `s` without leading and trailing `c` (`str::trim_matches`).
pub open spec fn trim_char_spec(s: Seq<char>, c: char) -> Seq<char> {
    if lead_count(s, c) == s.len() {
        Seq::empty()
    } else {
        s.subrange(lead_count(s, c) as int, s.len() - trail_count(s, c))
    }
}

/// `s` without leading and trailing `c`.
pub fn trim_char(s: &Vec<char>, c: char) -> (r: Vec<char>)
    ensures
        r@ == trim_char_spec(s@, c),
{
    proof {
        lemma_lead_count(s@, c);
        lemma_trail_count(s@, c);
    }
    let mut a: usize = 0;
    while a < s.len() && s[a] == c
        invariant
            a <= s@.len(),
            a <= lead_count(s@, c),
        decreases s@.len() - a,
    {
        proof {
            lemma_lead_count(s@, c);
        }
        a = a + 1;
    }
    proof {
        lemma_lead_count(s@, c);
        if a < lead_count(s@, c) {
            assert(s@[a as int] == c);
        }
    }
    let mut r: Vec<char> = Vec::new();
    if a == s.len() {
        return r;
    }
    let mut b: usize = s.len();
    while b > a && s[b - 1] == c
        invariant
            a < s@.len(),
            lead_count(s@, c) == a,
            s@[a as int] != c,
            a <= b <= s@.len(),
            s@.len() - b <= trail_count(s@, c),
        decreases b,
    {
        proof {
            lemma_trail_count(s@, c);
        }
        b = b - 1;
    }
    proof {
        lemma_trail_count(s@, c);
        if s@.len() - b < trail_count(s@, c) {
            assert(s@[b - 1] == c);
        }
    }
    let mut i = a;
    while i < b
        invariant
            a <= i <= b <= s@.len(),
            r@ == s@.subrange(a as int, i as int),
        decreases b - i,
    {
        r.push(s[i]);
        proof {
            assert(s@.subrange(a as int, i + 1) =~= s@.subrange(a as int, i as int).push(s@[i as int]));
        }
        i = i + 1;
    }
    r
}

// ── destination templates ───────────────────────────────────────────────

/// A timestamp (seconds since 1970, UTC) formatted by `chrono` with a
/// format string; the Unix epoch stands in for an out-of-range timestamp.
pub uninterp spec fn utc_format(ts: i64, fmt: Seq<char>) -> Seq<char>;

/// `chrono::DateTime::from_timestamp(ts, 0)` (the epoch when out of range),
/// formatted with `format(fmt)`; only the year, month and day formats are
/// asked for, which always format. For a moment of the years 1 to 9999 the
/// text is the date of its day in the Gregorian calendar, the year in four
/// digits and the month and day in two, zeros in front; for other
/// timestamps (a year with more digits or a sign, or out of chrono's range)
/// nothing more is said than that it is a function of the timestamp and the
/// format.
#[verifier::external_body]
fn format_utc(ts: i64, fmt: &str) -> (r: String)
    requires
        fmt@ == "%Y"@ || fmt@ == "%m"@ || fmt@ == "%d"@,
    ensures
        r@ == utc_format(ts, fmt@),
        -62135596800 <= ts <= 253402300799 ==> r@ == date_text(civil_date(ts / 86400), fmt@),
{
    chrono::DateTime::from_timestamp(ts, 0).unwrap_or_default().format(fmt).to_string()
}

/// The destination folder given by a template: `{rok}`, `{miesiac}` and
/// `{dzien}` become the year, month and day of `taken_at`, `{typ}` the kind
/// ("Zdjęcia" for photos, "Wideo" for videos) and `{folder}` the name of the
/// source folder; slashes around the result are dropped.
pub open spec fn template_spec(template: Seq<char>, taken_at: i64, kind: i64, src_folder: Seq<char>) -> Seq<char> {
    template_with(
        template,
        utc_format(taken_at, "%Y"@),
        utc_format(taken_at, "%m"@),
        utc_format(taken_at, "%d"@),
        kind,
        src_folder,
    )
}

/// A template with its date tokens replaced by the texts `y`, `m` and `d`.
pub open spec fn template_with(
    template: Seq<char>,
    y: Seq<char>,
    m: Seq<char>,
    d: Seq<char>,
    kind: i64,
    src_folder: Seq<char>,
) -> Seq<char> {
    let s1 = replace_spec(template, "{rok}"@, y);
    let s2 = replace_spec(s1, "{miesiac}"@, m);
    let s3 = replace_spec(s2, "{dzien}"@, d);
    let s4 = replace_spec(s3, "{typ}"@, if kind == 0 { "Zdjęcia"@ } else { "Wideo"@ });
    let s5 = replace_spec(s4, "{folder}"@, src_folder);
    trim_char_spec(s5, '/')
}

/// Resolves a destination template for one file.
pub fn apply_template(template: &str, taken_at: i64, kind: i64, src_folder: &str) -> (r: String)
    ensures
        r@ == template_spec(template@, taken_at, kind, src_folder@),
        -62135596800 <= taken_at <= 253402300799 ==> r@ == template_with(
            template@,
            date_text(civil_date(taken_at / 86400), "%Y"@),
            date_text(civil_date(taken_at / 86400), "%m"@),
            date_text(civil_date(taken_at / 86400), "%d"@),
            kind,
            src_folder@,
        ),
{
    let y = format_utc(taken_at, "%Y");
    let m = format_utc(taken_at, "%m");
    let d = format_utc(taken_at, "%d");
    let t = chars_of(template);
    let s1 = replace_all(&t, &chars_of("{rok}"), &chars_of(y.as_str()));
    let s2 = replace_all(&s1, &chars_of("{miesiac}"), &chars_of(m.as_str()));
    let s3 = replace_all(&s2, &chars_of("{dzien}"), &chars_of(d.as_str()));
    let typ = if kind == 0 { "Zdjęcia" } else { "Wideo" };
    let s4 = replace_all(&s3, &chars_of("{typ}"), &chars_of(typ));
    let s5 = replace_all(&s4, &chars_of("{folder}"), &chars_of(src_folder));
    let r = trim_char(&s5, '/');
    string_of(&r, 0, r.len())
}


// ── the import plan ─────────────────────────────────────────────────────

/// A media file found in the source: its kind (0 photo, 1 video), its size
/// and the destination folder its template resolved to.
#[derive(Clone, Debug)]
pub struct ScannedFile {
    pub kind: i64,
    pub size: i64,
    pub dst_dir: String,
}

/// What an import would bring in: counts, total size and the destination
/// folders with the number of files each would receive, in name order.
#[derive(Clone, Debug)]
pub struct ImportPlan {
    pub total: u64,
    pub total_size: i64,
    pub photos: u64,
    pub videos: u64,
    pub tree: Vec<(String, u64)>,
}

pub open spec fn size_sum(fs: Seq<ScannedFile>) -> int
    decreases fs.len(),
{
    if fs.len() == 0 {
        0
    } else {
        size_sum(fs.drop_last()) + fs.last().size
    }
}

pub open spec fn photo_count(fs: Seq<ScannedFile>) -> nat
    decreases fs.len(),
{
    if fs.len() == 0 {
        0
    } else {
        photo_count(fs.drop_last()) + if fs.last().kind == 0 {
            1nat
        } else {
            0nat
        }
    }
}

/// Number of files going to folder `d`.
pub open spec fn dir_count(fs: Seq<ScannedFile>, d: Seq<char>) -> nat
    decreases fs.len(),
{
    if fs.len() == 0 {
        0
    } else {
        dir_count(fs.drop_last(), d) + if fs.last().dst_dir@ == d {
            1nat
        } else {
            0nat
        }
    }
}

/// Every running total of the sizes fits in an `i64`.
pub open spec fn sums_fit(fs: Seq<ScannedFile>) -> bool {
    forall|k: int| 0 <= k <= fs.len() ==> i64::MIN <= #[trigger] size_sum(fs.subrange(0, k)) <= i64::MAX
}

proof fn lemma_counts_bounded(fs: Seq<ScannedFile>, d: Seq<char>)
    ensures
        dir_count(fs, d) <= fs.len(),
        photo_count(fs) <= fs.len(),
    decreases fs.len(),
{
    if fs.len() > 0 {
        lemma_counts_bounded(fs.drop_last(), d);
    }
}

proof fn lemma_dir_count_pos(fs: Seq<ScannedFile>, f: int)
    requires
        0 <= f < fs.len(),
    ensures
        dir_count(fs, fs[f].dst_dir@) > 0,
    decreases fs.len(),
{
    if f < fs.len() - 1 {
        lemma_dir_count_pos(fs.drop_last(), f);
    }
}

/// The folder names of a plan's tree.
pub open spec fn tree_names(t: Seq<(String, u64)>) -> Seq<Seq<char>> {
    t.map_values(|e: (String, u64)| e.0@)
}

/// The file counts of a plan's tree.
pub open spec fn tree_counts(t: Seq<(String, u64)>) -> Seq<u64> {
    t.map_values(|e: (String, u64)| e.1)
}

/// The folders of the plan are sorted, each counted exactly.
pub open spec fn tree_is(fs: Seq<ScannedFile>, keys: Seq<Seq<char>>, counts: Seq<u64>) -> bool {
    &&& keys.len() == counts.len()
    &&& forall|a: int, b: int| 0 <= a < b < keys.len() ==> chars_lt(keys[a], keys[b])
    &&& forall|j: int| 0 <= j < keys.len() ==> #[trigger] counts[j] == dir_count(fs, keys[j]) && counts[j] > 0
    &&& dirs_listed(fs, keys)
}

/// The sum of some file counts.
pub open spec fn count_sum(c: Seq<u64>) -> int
    decreases c.len(),
{
    if c.len() == 0 {
        0
    } else {
        count_sum(c.drop_last()) + c.last()
    }
}

/// The number of files going to each of the folders `keys`, added up.
pub open spec fn dir_sum(fs: Seq<ScannedFile>, keys: Seq<Seq<char>>) -> int
    decreases keys.len(),
{
    if keys.len() == 0 {
        0
    } else {
        dir_sum(fs, keys.drop_last()) + dir_count(fs, keys.last())
    }
}

/// How many of `keys` are `d`.
pub open spec fn occurrences(keys: Seq<Seq<char>>, d: Seq<char>) -> int
    decreases keys.len(),
{
    if keys.len() == 0 {
        0
    } else {
        occurrences(keys.drop_last(), d) + if keys.last() == d {
            1int
        } else {
            0int
        }
    }
}

proof fn lemma_dir_sum_empty(fs: Seq<ScannedFile>, keys: Seq<Seq<char>>)
    requires
        fs.len() == 0,
    ensures
        dir_sum(fs, keys) == 0,
    decreases keys.len(),
{
    if keys.len() > 0 {
        lemma_dir_sum_empty(fs, keys.drop_last());
    }
}

proof fn lemma_dir_sum_split(fs: Seq<ScannedFile>, keys: Seq<Seq<char>>)
    requires
        fs.len() > 0,
    ensures
        dir_sum(fs, keys) == dir_sum(fs.drop_last(), keys) + occurrences(keys, fs.last().dst_dir@),
    decreases keys.len(),
{
    if keys.len() > 0 {
        lemma_dir_sum_split(fs, keys.drop_last());
    }
}

proof fn lemma_occurrences_none(keys: Seq<Seq<char>>, d: Seq<char>)
    requires
        forall|j: int| 0 <= j < keys.len() ==> keys[j] != d,
    ensures
        occurrences(keys, d) == 0,
    decreases keys.len(),
{
    if keys.len() > 0 {
        lemma_occurrences_none(keys.drop_last(), d);
    }
}

proof fn lemma_occurrences_one(keys: Seq<Seq<char>>, d: Seq<char>, j: int)
    requires
        forall|a: int, b: int| 0 <= a < b < keys.len() ==> keys[a] != keys[b],
        0 <= j < keys.len(),
        keys[j] == d,
    ensures
        occurrences(keys, d) == 1,
    decreases keys.len(),
{
    let n = keys.len() - 1;
    if j == n {
        assert forall|i: int| 0 <= i < keys.drop_last().len() implies keys.drop_last()[i] != d by {
            assert(keys[i] != keys[n]);
        }
        lemma_occurrences_none(keys.drop_last(), d);
    } else {
        assert(keys[j] != keys[n]);
        lemma_occurrences_one(keys.drop_last(), d, j);
    }
}

/// `d` is one of the folders `keys`.
pub open spec fn listed(keys: Seq<Seq<char>>, d: Seq<char>) -> bool {
    exists|j: int| 0 <= j < keys.len() && #[trigger] keys[j] == d
}

/// Every file goes to one of the folders `keys`.
pub open spec fn dirs_listed(fs: Seq<ScannedFile>, keys: Seq<Seq<char>>) -> bool {
    forall|f: int| #![trigger fs[f]] 0 <= f < fs.len() ==> listed(keys, fs[f].dst_dir@)
}

proof fn lemma_dir_sum_total(fs: Seq<ScannedFile>, keys: Seq<Seq<char>>)
    requires
        forall|a: int, b: int| 0 <= a < b < keys.len() ==> keys[a] != keys[b],
        dirs_listed(fs, keys),
    ensures
        dir_sum(fs, keys) == fs.len(),
    decreases fs.len(),
{
    if fs.len() == 0 {
        lemma_dir_sum_empty(fs, keys);
    } else {
        let rest = fs.drop_last();
        assert forall|f: int| #![trigger rest[f]] 0 <= f < rest.len() implies listed(keys, rest[f].dst_dir@) by {
            assert(rest[f] == fs[f]);
        }
        lemma_dir_sum_total(rest, keys);
        lemma_dir_sum_split(fs, keys);
        let last = fs.len() - 1;
        assert(fs[last] == fs.last());
        assert(listed(keys, fs[last].dst_dir@));
        let j = choose|j: int| 0 <= j < keys.len() && #[trigger] keys[j] == fs[last].dst_dir@;
        lemma_occurrences_one(keys, fs.last().dst_dir@, j);
    }
}

proof fn lemma_count_sum_dirs(fs: Seq<ScannedFile>, keys: Seq<Seq<char>>, counts: Seq<u64>)
    requires
        keys.len() == counts.len(),
        forall|j: int| 0 <= j < keys.len() ==> #[trigger] counts[j] == dir_count(fs, keys[j]),
    ensures
        count_sum(counts) == dir_sum(fs, keys),
    decreases keys.len(),
{
    if keys.len() > 0 {
        let (k2, c2) = (keys.drop_last(), counts.drop_last());
        assert forall|j: int| 0 <= j < k2.len() implies #[trigger] c2[j] == dir_count(fs, k2[j]) by {
            assert(c2[j] == counts[j] && k2[j] == keys[j]);
        }
        lemma_count_sum_dirs(fs, k2, c2);
        assert(counts[keys.len() - 1] == dir_count(fs, keys[keys.len() - 1]));
    }
}

/// Every file of an import plan is counted in exactly one folder of its
/// tree: the counts add up to the number of files.
pub proof fn lemma_plan_counts_every_file(fs: Seq<ScannedFile>, keys: Seq<Seq<char>>, counts: Seq<u64>)
    requires
        tree_is(fs, keys, counts),
    ensures
        count_sum(counts) == fs.len(),
{
    assert forall|a: int, b: int| 0 <= a < b < keys.len() implies keys[a] != keys[b] by {
        assert(chars_lt(keys[a], keys[b]));
        if keys[a] == keys[b] {
            lemma_chars_lt_irrefl(keys[a]);
        }
    }
    assert forall|j: int| 0 <= j < keys.len() implies #[trigger] counts[j] == dir_count(fs, keys[j]) by {}
    lemma_count_sum_dirs(fs, keys, counts);
    lemma_dir_sum_total(fs, keys);
}

/// Counts what an import of the scanned files would bring in.
pub fn plan(files: &[ScannedFile]) -> (p: ImportPlan)
    requires
        sums_fit(files@),
    ensures
        p.total == files@.len(),
        p.total_size == size_sum(files@),
        p.photos == photo_count(files@),
        p.photos + p.videos == files@.len(),
        tree_is(files@, tree_names(p.tree@), tree_counts(p.tree@)),
{
    let n = files.len();
    let mut keys: Vec<Vec<char>> = Vec::new();
    let mut counts: Vec<u64> = Vec::new();
    let ghost mut ks: Seq<Seq<char>> = Seq::empty();
    let mut photos: u64 = 0;
    let mut total_size: i64 = 0;
    let mut i: usize = 0;
    while i < n
        invariant
            n == files@.len(),
            i <= n,
            sums_fit(files@),
            keys@.len() == ks.len(),
            forall|j: int| 0 <= j < ks.len() ==> #[trigger] keys@[j]@ == ks[j],
            tree_is(files@.subrange(0, i as int), ks, counts@),
            photos == photo_count(files@.subrange(0, i as int)),
            total_size == size_sum(files@.subrange(0, i as int)),
        decreases n - i,
    {
        let ghost pre = files@.subrange(0, i as int);
        let ghost pre1 = files@.subrange(0, i + 1);
        proof {
            assert(pre1.drop_last() =~= pre);
            assert(pre1.last() == files@[i as int]);
            lemma_counts_bounded(pre, files@[i as int].dst_dir@);
            assert(i64::MIN <= size_sum(pre1) <= i64::MAX);
        }
        let f = &files[i];
        total_size = total_size + f.size;
        if f.kind == 0 {
            photos = photos + 1;
        }
        let d = chars_of(f.dst_dir.as_str());
        let mut j: usize = 0;
        while j < keys.len() && less_chars(&keys[j], &d)
            invariant
                keys@.len() == ks.len(),
                forall|q: int| 0 <= q < ks.len() ==> #[trigger] keys@[q]@ == ks[q],
                j <= keys@.len(),
                forall|a: int| 0 <= a < j ==> chars_lt(#[trigger] ks[a], d@),
            decreases keys@.len() - j,
        {
            j = j + 1;
        }
        let found = j < keys.len() && chars_eq(&keys[j], &d);
        if found {
            proof {
                assert(counts@[j as int] == dir_count(pre, ks[j as int]));
            }
            let c = counts[j];
            counts.set(j, c + 1);
            proof {
                assert forall|q: int| 0 <= q < ks.len() implies #[trigger] counts@[q] == dir_count(pre1, ks[q]) && counts@[q] > 0 by {
                    assert(dir_count(pre1, ks[q]) == dir_count(pre, ks[q]) + if pre1.last().dst_dir@ == ks[q] { 1nat } else { 0nat });
                    if q != j {
                        if ks[q] == d@ {
                            if q < j {
                                lemma_chars_lt_irrefl(d@);
                            } else {
                                lemma_chars_lt_trans(ks[j as int], ks[q], ks[j as int]);
                                lemma_chars_lt_irrefl(ks[j as int]);
                            }
                        }
                    }
                }
                assert forall|g: int| #![trigger pre1[g]] 0 <= g < pre1.len() implies exists|q: int| 0 <= q < ks.len() && #[trigger] ks[q] == pre1[g].dst_dir@ by {
                    if g < i {
                        assert(pre1[g] == pre[g]);
                        assert(exists|q: int| 0 <= q < ks.len() && #[trigger] ks[q] == pre[g].dst_dir@);
                    } else {
                        assert(ks[j as int] == pre1[g].dst_dir@);
                    }
                }
            }
        } else {
            let ghost old_ks = ks;
            let ghost old_counts = counts@;
            let ghost old_keys = keys@;
            proof {
                if j < keys@.len() {
                    assert(!chars_lt(ks[j as int], d@));
                    assert(ks[j as int] != d@);
                    lemma_chars_lt_total(ks[j as int], d@);
                }
            }
            keys.insert(j, d);
            counts.insert(j, 1);
            proof {
                ks = old_ks.insert(j as int, d@);
                assert forall|q: int| 0 <= q < ks.len() implies #[trigger] keys@[q]@ == ks[q] by {
                    if q < j {
                        assert(keys@[q] == old_keys[q]);
                    } else if q > j {
                        assert(keys@[q] == old_keys[q - 1]);
                        assert(ks[q] == old_ks[q - 1]);
                    }
                }
                assert forall|a: int, b: int| 0 <= a < b < ks.len() implies chars_lt(ks[a], ks[b]) by {
                    if b < j {
                        assert(ks[a] == old_ks[a] && ks[b] == old_ks[b]);
                    } else if b == j {
                        assert(ks[a] == old_ks[a]);
                    } else if a == j {
                        assert(ks[b] == old_ks[b - 1]);
                        if b - 1 > j {
                            lemma_chars_lt_trans(d@, old_ks[j as int], old_ks[b - 1]);
                        }
                    } else if a < j {
                        assert(ks[a] == old_ks[a] && ks[b] == old_ks[b - 1]);
                    } else {
                        assert(ks[a] == old_ks[a - 1] && ks[b] == old_ks[b - 1]);
                    }
                }
                assert forall|q: int| 0 <= q < ks.len() implies #[trigger] counts@[q] == dir_count(pre1, ks[q]) && counts@[q] > 0 by {
                    assert(dir_count(pre1, ks[q]) == dir_count(pre, ks[q]) + if pre1.last().dst_dir@ == ks[q] { 1nat } else { 0nat });
                    if q == j {
                        assert forall|g: int| 0 <= g < pre.len() implies pre[g].dst_dir@ != d@ by {
                            if pre[g].dst_dir@ == d@ {
                                let w = choose|w: int| 0 <= w < old_ks.len() && #[trigger] old_ks[w] == pre[g].dst_dir@;
                                if w < j {
                                    lemma_chars_lt_irrefl(d@);
                                } else if w > j {
                                    lemma_chars_lt_trans(d@, old_ks[j as int], old_ks[w]);
                                    lemma_chars_lt_irrefl(d@);
                                } else {
                                    lemma_chars_lt_irrefl(d@);
                                }
                            }
                        }
                        lemma_dir_count_zero(pre, d@);
                    } else {
                        let oq = if q < j { q } else { q - 1 };
                        assert(ks[q] == old_ks[oq] && counts@[q] == old_counts[oq]);
                        if ks[q] == d@ {
                            if oq < j {
                                lemma_chars_lt_irrefl(d@);
                            } else {
                                lemma_chars_lt_trans(d@, old_ks[j as int], old_ks[oq]);
                                lemma_chars_lt_irrefl(d@);
                            }
                        }
                    }
                }
                assert forall|g: int| #![trigger pre1[g]] 0 <= g < pre1.len() implies exists|q: int| 0 <= q < ks.len() && #[trigger] ks[q] == pre1[g].dst_dir@ by {
                    if g < i {
                        assert(pre1[g] == pre[g]);
                        let w = choose|w: int| 0 <= w < old_ks.len() && #[trigger] old_ks[w] == pre[g].dst_dir@;
                        if w < j {
                            assert(ks[w] == old_ks[w]);
                        } else {
                            assert(ks[w + 1] == old_ks[w]);
                        }
                    } else {
                        assert(ks[j as int] == pre1[g].dst_dir@);
                    }
                }
            }
        }
        i = i + 1;
    }
    let mut tree: Vec<(String, u64)> = Vec::new();
    let mut k: usize = 0;
    while k < keys.len()
        invariant
            keys@.len() == ks.len(),
            counts@.len() == ks.len(),
            forall|j: int| 0 <= j < ks.len() ==> #[trigger] keys@[j]@ == ks[j],
            k <= keys@.len(),
            tree_names(tree@) == ks.subrange(0, k as int),
            tree_counts(tree@) == counts@.subrange(0, k as int),
        decreases keys@.len() - k,
    {
        let name = string_of(&keys[k], 0, keys[k].len());
        proof {
            assert(keys@[k as int]@.subrange(0, keys@[k as int]@.len() as int) =~= keys@[k as int]@);
        }
        let ghost old_tree = tree@;
        let ghost nm = name@;
        tree.push((name, counts[k]));
        proof {
            assert(tree_names(old_tree).len() == old_tree.len());
            assert(old_tree.len() == k);
            assert(tree@ == old_tree.push(tree@[k as int]));
            assert(tree@[k as int].0@ == nm);
            assert(nm == keys@[k as int]@);
            assert forall|q: int| 0 <= q < k + 1 implies #[trigger] tree_names(tree@)[q] == ks.subrange(0, k + 1)[q] by {
                if q < k {
                    assert(tree@[q] == old_tree[q]);
                    assert(tree_names(old_tree)[q] == ks.subrange(0, k as int)[q]);
                } else {
                    assert(tree_names(tree@)[q] == tree@[q].0@);
                }
            }
            assert(tree_names(tree@) =~= ks.subrange(0, k + 1));
            assert(tree_counts(tree@) =~= counts@.subrange(0, k + 1));
        }
        k = k + 1;
    }
    proof {
        assert(files@.subrange(0, n as int) =~= files@);
        lemma_counts_bounded(files@, Seq::empty());
        assert(ks.subrange(0, ks.len() as int) =~= ks);
        assert(counts@.subrange(0, ks.len() as int) =~= counts@);
    }
    ImportPlan { total: n as u64, total_size, photos, videos: n as u64 - photos, tree }
}

proof fn lemma_dir_count_zero(fs: Seq<ScannedFile>, d: Seq<char>)
    requires
        forall|g: int| 0 <= g < fs.len() ==> fs[g].dst_dir@ != d,
    ensures
        dir_count(fs, d) == 0,
    decreases fs.len(),
{
    if fs.len() > 0 {
        assert forall|g: int| 0 <= g < fs.drop_last().len() implies fs.drop_last()[g].dst_dir@ != d by {
            assert(fs.drop_last()[g] == fs[g]);
        }
        lemma_dir_count_zero(fs.drop_last(), d);
    }
}


// ── destination names ───────────────────────────────────────────────────

/// A file name split before its last '.': the stem and the extension with
/// its dot ("" when there is no dot).
pub open spec fn stem_ext(name: Seq<char>) -> (Seq<char>, Seq<char>) {
    match last_index_of(name, '.') {
        Some(k) => (name.subrange(0, k), name.subrange(k, name.len() as int)),
        None => (name, Seq::empty()),
    }
}

/// Candidate `i` for a file name: the name itself, then `stem_i.ext`.
pub open spec fn candidate_name(name: Seq<char>, i: nat) -> Seq<char> {
    let (stem, ext) = stem_ext(name);
    if i == 0 {
        stem + ext
    } else {
        stem + seq!['_'] + decimal(i) + ext
    }
}

/// Candidate `i` for a file placed in `dir` (relative to the library).
pub open spec fn candidate_rel(dir: Seq<char>, name: Seq<char>, i: nat) -> Seq<char> {
    join_spec(dir, candidate_name(name, i))
}

/// The relative path of candidate `i` for `name` in `dir`; the first free
/// candidate is where the file goes, so a name collision gets `_1`, `_2`, …
pub fn dst_candidate(dir: &str, name: &str, i: u32) -> (r: String)
    ensures
        r@ == candidate_rel(dir@, name@, i as nat),
{
    let v = chars_of(name);
    proof {
        crate::text::lemma_last_index_of_bounds(v@, '.');
    }
    let (stem, ext) = match rfind_char(&v, '.') {
        Some(k) => (string_of(&v, 0, k), string_of(&v, k, v.len())),
        None => (string_of(&v, 0, v.len()), String::new()),
    };
    proof {
        assert(v@.subrange(0, v@.len() as int) =~= v@);
    }
    let mut cand = String::new();
    push_str(&mut cand, stem.as_str());
    if i > 0 {
        push_char(&mut cand, '_');
        push_decimal(&mut cand, i as u64);
    }
    push_str(&mut cand, ext.as_str());
    proof {
        if i == 0 {
            assert(cand@ =~= stem@ + ext@);
        } else {
            assert(cand@ =~= stem@ + seq!['_'] + decimal(i as nat) + ext@);
        }
    }
    join_path(dir, cand.as_str())
}

/// The first candidate is the name itself.
pub proof fn lemma_first_candidate(dir: Seq<char>, name: Seq<char>)
    ensures
        candidate_rel(dir, name, 0) == join_spec(dir, name),
{
    match last_index_of(name, '.') {
        Some(k) => {
            crate::text::lemma_last_index_of_bounds(name, '.');
            assert(name.subrange(0, k) + name.subrange(k, name.len() as int) =~= name);
        },
        None => {
            assert(name + Seq::<char>::empty() =~= name);
        },
    }
}

/// Accepts a copy only when the hash of what was written equals the hash
/// of the source; otherwise the refusal names the source file.
pub fn verify_copy(src_hash: &[u8], dst_hash: &[u8], src_display: &str) -> (r: Result<(), String>)
    ensures
        src_hash@ == dst_hash@ ==> r is Ok,
        src_hash@ != dst_hash@ ==> (r matches Err(e) && e@ == "weryfikacja hash nie powiodła się: "@
            + src_display@),
{
    if crate::dedup::bytes_eq(src_hash, dst_hash) {
        Ok(())
    } else {
        let mut e = String::from_str("weryfikacja hash nie powiodła się: ");
        push_str(&mut e, src_display);
        Err(e)
    }
}

// ── new drives ──────────────────────────────────────────────────────────

/// The drive letters present now that were not present before, in the
/// order they are listed now: a new letter is taken for a card or a stick
/// just plugged in.
pub fn new_drives(before: &[char], now: &[char]) -> (r: Vec<char>)
    ensures
        r@ == now@.filter(|c: char| !before@.contains(c)),
{
    let mut out: Vec<char> = Vec::new();
    let mut i: usize = 0;
    while i < now.len()
        invariant
            i <= now@.len(),
            out@ == now@.subrange(0, i as int).filter(|c: char| !before@.contains(c)),
        decreases now@.len() - i,
    {
        let c = now[i];
        let mut seen = false;
        let mut k: usize = 0;
        while k < before.len()
            invariant
                k <= before@.len(),
                seen == before@.subrange(0, k as int).contains(c),
            decreases before@.len() - k,
        {
            if before[k] == c {
                seen = true;
            }
            proof {
                assert(before@.subrange(0, k + 1) =~= before@.subrange(0, k as int).push(before@[k as int]));
                vstd::seq_lib::lemma_seq_contains_after_push(before@.subrange(0, k as int), before@[k as int], c);
            }
            k = k + 1;
        }
        proof {
            assert(before@.subrange(0, before@.len() as int) =~= before@);
            let pre = now@.subrange(0, i as int);
            assert(now@.subrange(0, i + 1) =~= pre.push(c));
            assert(pre.push(c).drop_last() =~= pre);
            reveal_with_fuel(Seq::filter, 1);
        }
        if !seen {
            out.push(c);
        }
        i = i + 1;
    }
    proof {
        assert(now@.subrange(0, now@.len() as int) =~= now@);
    }
    out
}

/// The root folder of a drive letter, "<letter>:\".
pub fn drive_root(letter: char) -> (r: String)
    ensures
        r@ == seq![letter, ':', '\\'],
{
    let mut r = String::new();
    push_char(&mut r, letter);
    push_char(&mut r, ':');
    push_char(&mut r, '\\');
    proof {
        assert(r@ =~= seq![letter, ':', '\\']);
    }
    r
}

// ── scan progress ───────────────────────────────────────────────────────

/// Progress of an import scan.
#[derive(Clone, Copy, Debug)]
pub struct ImportProgress {
    pub done: u64,
    pub total: u64,
    /// Files without a duplicate in the library (waiting, not yet copied).
    pub new_files: u64,
    pub duplicates: u64,
    pub errors: u64,
}

/// How the scan of one file ended.
#[derive(Clone, Copy, Debug, PartialEq, Eq, Structural)]
pub enum FileOutcome {
    /// Queued; no file in the library has its content.
    New,
    /// Queued; the library already holds its content.
    Duplicate,
    /// It could not be hashed or queued.
    Failed,
}

impl ImportProgress {
    /// Every file seen is counted once, as new, duplicate or failed.
    pub open spec fn wf(&self) -> bool {
        self.new_files + self.duplicates + self.errors == self.done
    }

    /// Nothing done yet out of `total` files.
    pub fn start(total: u64) -> (p: ImportProgress)
        ensures
            p.wf(),
            p.done == 0 && p.total == total && p.new_files == 0 && p.duplicates == 0 && p.errors == 0,
    {
        ImportProgress { done: 0, total, new_files: 0, duplicates: 0, errors: 0 }
    }

    /// Counts one more file; true when progress is to be reported (every
    /// fifth file and the last one).
    pub fn record(&mut self, outcome: FileOutcome) -> (report: bool)
        requires
            old(self).wf(),
            old(self).done < u64::MAX,
        ensures
            final(self).wf(),
            final(self).done == old(self).done + 1,
            final(self).total == old(self).total,
            final(self).new_files == old(self).new_files + if outcome == FileOutcome::New { 1int } else { 0int },
            final(self).duplicates == old(self).duplicates + if outcome == FileOutcome::Duplicate {
                1int
            } else {
                0int
            },
            final(self).errors == old(self).errors + if outcome == FileOutcome::Failed { 1int } else { 0int },
            report == (final(self).done % 5 == 0 || final(self).done == final(self).total),
    {
        match outcome {
            FileOutcome::New => self.new_files = self.new_files + 1,
            FileOutcome::Duplicate => self.duplicates = self.duplicates + 1,
            FileOutcome::Failed => self.errors = self.errors + 1,
        }
        self.done = self.done + 1;
        self.done % 5 == 0 || self.done == self.total
    }
}

// ── the waiting room ────────────────────────────────────────────────────

/// What becomes of the chosen files of the waiting room.
#[derive(Clone, Copy, Debug, PartialEq, Eq, Structural)]
pub enum PendingAction {
    /// Copy into the library (verified by hash).
    Import,
    /// Move the source file to the system trash.
    DeleteSource,
    /// Only drop it from the waiting room.
    Skip,
}

/// Reads the action name: "import", "delete_source"; anything else skips.
pub fn pending_action(action: &str) -> (a: PendingAction)
    ensures
        a == (if action@ == "import"@ {
            PendingAction::Import
        } else if action@ == "delete_source"@ {
            PendingAction::DeleteSource
        } else {
            PendingAction::Skip
        }),
{
    if str_eq(action, "import") {
        PendingAction::Import
    } else if str_eq(action, "delete_source") {
        PendingAction::DeleteSource
    } else {
        PendingAction::Skip
    }
}

/// A file of the waiting room; the `dup_*` fields describe the library
/// file with the same content, when there is one.
#[derive(Clone, Debug)]
pub struct PendingItem {
    pub id: i64,
    pub src: String,
    pub dst: String,
    pub size: i64,
    pub kind: i64,
    pub dup_id: Option<i64>,
    pub dup_path: Option<String>,
    pub dup_name: Option<String>,
    pub dup_size: Option<i64>,
    pub dup_thumb: Option<String>,
    pub dup_taken_at: Option<i64>,
}

} // verus!
