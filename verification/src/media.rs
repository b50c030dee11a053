//! Serving media to the interface and naming indexed files: media types,
//! byte ranges, the request paths of the `media:` and `thumb:` protocols,
//! thumbnail locations, file kinds by extension, EXIF orientation, the
//! quick content hash of videos and blurhash placeholders.

use vstd::prelude::*;
use vstd::string::StringExecFns;

use crate::text::{
    all_hex, ascii_lower_seq, chars_are, chars_of, decimal, hex_value, join_spec, last_index_of, lower_from, push_char,
    push_decimal, push_str, rfind_char, string_of,
};

verus! {

// ── numbers in text ─────────────────────────────────────────────────────

/// The value of a run of decimal digits.
pub open spec fn digits_value(s: Seq<char>) -> nat
    decreases s.len(),
{
    if s.len() == 0 {
        0
    } else {
        (digits_value(s.drop_last()) * 10 + (s.last() as nat - 48)) as nat
    }
}

pub open spec fn is_digit(c: char) -> bool {
    '0' <= c && c <= '9'
}

pub open spec fn all_digits(s: Seq<char>) -> bool {
    forall|i: int| 0 <= i < s.len() ==> #[trigger] is_digit(s[i])
}

/// `u64::from_str`: an optional '+', then at least one digit, the value
/// fitting in a `u64`.
pub open spec fn parse_u64_spec(s: Seq<char>) -> Option<u64> {
    let d = if s.len() > 0 && s[0] == '+' { s.drop_first() } else { s };
    if d.len() > 0 && all_digits(d) && digits_value(d) <= u64::MAX {
        Some(digits_value(d) as u64)
    } else {
        None
    }
}

proof fn lemma_digits_value_mono(s: Seq<char>, k: int)
    requires
        0 <= k <= s.len(),
        all_digits(s),
    ensures
        digits_value(s.subrange(0, k)) <= digits_value(s),
    decreases s.len() - k,
{
    if k < s.len() {
        lemma_digits_value_mono(s, k + 1);
        let p = s.subrange(0, k + 1);
        assert(p.drop_last() =~= s.subrange(0, k));
        assert(is_digit(s[k]));
    } else {
        assert(s.subrange(0, k) =~= s);
    }
}

/// Reads `v[from..]` as a `u64` the way `str::parse` does.
pub(crate) fn parse_u64_from(v: &Vec<char>, from: usize) -> (r: Option<u64>)
    requires
        from <= v@.len(),
    ensures
        r == parse_u64_spec(v@.subrange(from as int, v@.len() as int)),
{
    let ghost s = v@.subrange(from as int, v@.len() as int);
    let mut i = from;
    if i < v.len() && v[i] == '+' {
        i = i + 1;
    }
    let ghost d = v@.subrange(i as int, v@.len() as int);
    proof {
        if s.len() > 0 && s[0] == '+' {
            assert(d =~= s.drop_first());
        } else {
            assert(d =~= s);
        }
    }
    if i == v.len() {
        return None;
    }
    let start = i;
    let mut acc: u64 = 0;
    proof {
        assert(parse_u64_spec(s) == (if d.len() > 0 && all_digits(d) && digits_value(d) <= u64::MAX {
            Some(digits_value(d) as u64)
        } else {
            None
        }));
    }
    while i < v.len()
        invariant
            start <= i <= v@.len(),
            start < v@.len(),
            s == v@.subrange(from as int, v@.len() as int),
            parse_u64_spec(s) == (if d.len() > 0 && all_digits(d) && digits_value(d) <= u64::MAX {
                Some(digits_value(d) as u64)
            } else {
                None
            }),
            d == v@.subrange(start as int, v@.len() as int),
            all_digits(v@.subrange(start as int, i as int)),
            acc == digits_value(v@.subrange(start as int, i as int)),
        decreases v@.len() - i,
    {
        let c = v[i];
        if !('0' <= c && c <= '9') {
            proof {
                assert(d[i - start] == c);
                assert(!is_digit(d[i - start]));
            }
            return None;
        }
        let digit = (c as u32 - 48) as u64;
        let ghost pre1 = v@.subrange(start as int, i + 1);
        proof {
            assert(pre1.drop_last() =~= v@.subrange(start as int, i as int));
            assert forall|k: int| 0 <= k < pre1.len() implies #[trigger] is_digit(pre1[k]) by {
                if k < pre1.len() - 1 {
                    assert(pre1[k] == v@.subrange(start as int, i as int)[k]);
                }
            }
        }
        if acc > (u64::MAX - digit) / 10 {
            proof {
                assert(digits_value(pre1) > u64::MAX);
                assert forall|k: int| 0 <= k < d.len() implies #[trigger] is_digit(d[k]) || !all_digits(d) by {}
                if all_digits(d) {
                    assert(d.subrange(0, i + 1 - start) =~= pre1);
                    lemma_digits_value_mono(d, i + 1 - start);
                }
            }
            return None;
        }
        acc = acc * 10 + digit;
        i = i + 1;
    }
    proof {
        assert(v@.subrange(start as int, i as int) =~= d);
    }
    Some(acc)
}

/// `i64::from_str`: an optional sign, then at least one digit, the value
/// fitting in an `i64`.
pub open spec fn parse_i64_spec(s: Seq<char>) -> Option<i64> {
    let neg = s.len() > 0 && s[0] == '-';
    let d = if s.len() > 0 && (s[0] == '+' || s[0] == '-') { s.drop_first() } else { s };
    if d.len() > 0 && all_digits(d) && (if neg { digits_value(d) <= 9223372036854775808 } else { digits_value(d) <= i64::MAX }) {
        Some((if neg { -(digits_value(d) as int) } else { digits_value(d) as int }) as i64)
    } else {
        None
    }
}

/// Reads `v[from..]` as an `i64` the way `str::parse` does.
pub(crate) fn parse_i64_from(v: &Vec<char>, from: usize) -> (r: Option<i64>)
    requires
        from <= v@.len(),
    ensures
        r == parse_i64_spec(v@.subrange(from as int, v@.len() as int)),
{
    let ghost s = v@.subrange(from as int, v@.len() as int);
    let neg = from < v.len() && v[from] == '-';
    let signed = from < v.len() && (v[from] == '+' || v[from] == '-');
    let start = if signed { from + 1 } else { from };
    let ghost d = v@.subrange(start as int, v@.len() as int);
    proof {
        if signed {
            assert(d =~= s.drop_first());
        } else {
            assert(d =~= s);
        }
    }
    // the digits as an unsigned value (no sign of their own)
    if start < v.len() && (v[start] == '+' || v[start] == '-') {
        proof {
            assert(!is_digit(d[0]));
        }
        return None;
    }
    let u = parse_u64_from(v, start);
    proof {
        if d.len() > 0 && !(d[0] == '+') {
            assert(parse_u64_spec(d) == (if d.len() > 0 && all_digits(d) && digits_value(d) <= u64::MAX {
                Some(digits_value(d) as u64)
            } else {
                None
            }));
        }
    }
    match u {
        Some(m) => {
            if neg {
                if m <= 9223372036854775808u64 {
                    if m == 9223372036854775808u64 {
                        Some(i64::MIN)
                    } else {
                        Some(-(m as i64))
                    }
                } else {
                    None
                }
            } else if m <= 9223372036854775807u64 {
                Some(m as i64)
            } else {
                None
            }
        },
        None => None,
    }
}

// ── media types ─────────────────────────────────────────────────────────

/// The text after the last '.' (all of it when there is none), in ASCII
/// lower case.
pub open spec fn last_ext(path: Seq<char>) -> Seq<char> {
    match last_index_of(path, '.') {
        Some(k) => ascii_lower_seq(path.subrange(k + 1, path.len() as int)),
        None => ascii_lower_seq(path),
    }
}

/// The media type served for a file, by its extension.
pub open spec fn mime_spec(path: Seq<char>) -> Seq<char> {
    let e = last_ext(path);
    if e == "jpg"@ || e == "jpeg"@ {
        "image/jpeg"@
    } else if e == "png"@ {
        "image/png"@
    } else if e == "gif"@ {
        "image/gif"@
    } else if e == "webp"@ {
        "image/webp"@
    } else if e == "bmp"@ {
        "image/bmp"@
    } else if e == "tiff"@ || e == "tif"@ {
        "image/tiff"@
    } else if e == "mp4"@ || e == "m4v"@ {
        "video/mp4"@
    } else if e == "mov"@ {
        "video/quicktime"@
    } else if e == "mkv"@ {
        "video/x-matroska"@
    } else if e == "avi"@ {
        "video/x-msvideo"@
    } else if e == "wmv"@ {
        "video/x-ms-wmv"@
    } else if e == "mts"@ {
        "video/mp2t"@
    } else if e == "3gp"@ {
        "video/3gpp"@
    } else {
        "application/octet-stream"@
    }
}

fn ext_of(path: &str) -> (e: Vec<char>)
    ensures
        e@ == last_ext(path@),
{
    let v = chars_of(path);
    let n = v.len();
    proof {
        crate::text::lemma_last_index_of_bounds(v@, '.');
    }
    match rfind_char(&v, '.') {
        Some(k) => {
            proof {
                assert(k < n);
            }
            lower_from(&v, k + 1)
        },
        None => {
            let e = lower_from(&v, 0);
            proof {
                assert(v@.subrange(0, v@.len() as int) =~= v@);
            }
            e
        },
    }
}

/// The media type of a file served by path.
pub fn mime_for(path: &str) -> (m: &'static str)
    ensures
        m@ == mime_spec(path@),
{
    let e = ext_of(path);
    if chars_are(&e, "jpg") || chars_are(&e, "jpeg") {
        "image/jpeg"
    } else if chars_are(&e, "png") {
        "image/png"
    } else if chars_are(&e, "gif") {
        "image/gif"
    } else if chars_are(&e, "webp") {
        "image/webp"
    } else if chars_are(&e, "bmp") {
        "image/bmp"
    } else if chars_are(&e, "tiff") || chars_are(&e, "tif") {
        "image/tiff"
    } else if chars_are(&e, "mp4") || chars_are(&e, "m4v") {
        "video/mp4"
    } else if chars_are(&e, "mov") {
        "video/quicktime"
    } else if chars_are(&e, "mkv") {
        "video/x-matroska"
    } else if chars_are(&e, "avi") {
        "video/x-msvideo"
    } else if chars_are(&e, "wmv") {
        "video/x-ms-wmv"
    } else if chars_are(&e, "mts") {
        "video/mp2t"
    } else if chars_are(&e, "3gp") {
        "video/3gpp"
    } else {
        "application/octet-stream"
    }
}

// ── byte ranges ─────────────────────────────────────────────────────────

/// The most bytes served by one range response.
pub const MEDIA_CHUNK: u64 = 8388608;

/// The last byte of a file of `len` bytes (0 for an empty file).
pub open spec fn last_byte(len: u64) -> u64 {
    if len == 0 {
        0
    } else {
        (len - 1) as u64
    }
}

/// Position of the first `c` in `s`, if any.
pub open spec fn first_index_of(s: Seq<char>, c: char) -> Option<int>
    decreases s.len(),
{
    if s.len() == 0 {
        None
    } else if s[0] == c {
        Some(0)
    } else {
        match first_index_of(s.drop_first(), c) {
            Some(k) => Some(k + 1),
            None => None,
        }
    }
}

proof fn lemma_first_index_of(s: Seq<char>, c: char)
    ensures
        match first_index_of(s, c) {
            Some(k) => 0 <= k < s.len() && s[k] == c && forall|j: int| 0 <= j < k ==> s[j] != c,
            None => forall|j: int| 0 <= j < s.len() ==> s[j] != c,
        },
    decreases s.len(),
{
    if s.len() > 0 && s[0] != c {
        lemma_first_index_of(s.drop_first(), c);
        match first_index_of(s.drop_first(), c) {
            Some(k) => {
                assert forall|j: int| 0 <= j < k + 1 implies s[j] != c by {
                    if j > 0 {
                        assert(s[j] == s.drop_first()[j - 1]);
                    }
                }
            },
            None => {
                assert forall|j: int| 0 <= j < s.len() implies s[j] != c by {
                    if j > 0 {
                        assert(s[j] == s.drop_first()[j - 1]);
                    }
                }
            },
        }
    }
}

/// The requested range of a `Range` header value `bytes=<start>-<end>` for a
/// file of `len` bytes: the end defaults to, and is cut at, the last byte.
pub open spec fn range_spec(header: Seq<char>, len: u64) -> Option<(u64, u64)> {
    let p = "bytes="@;
    if header.len() >= p.len() && header.subrange(0, p.len() as int) == p {
        let rest = header.subrange(p.len() as int, header.len() as int);
        match first_index_of(rest, '-') {
            Some(k) => match parse_u64_spec(rest.subrange(0, k)) {
                Some(start) => {
                    let end = match parse_u64_spec(rest.subrange(k + 1, rest.len() as int)) {
                        Some(e) => e,
                        None => last_byte(len),
                    };
                    Some((start, if end < last_byte(len) { end } else { last_byte(len) }))
                },
                None => None,
            },
            None => None,
        }
    } else {
        None
    }
}

/// Reads a `Range` header value for a file of `len` bytes.
pub fn parse_range(header: &str, len: u64) -> (r: Option<(u64, u64)>)
    ensures
        r == range_spec(header@, len),
{
    let v = chars_of(header);
    let p = chars_of("bytes=");
    let n = v.len();
    let m = p.len();
    if n < m {
        return None;
    }
    let head = string_of(&v, 0, m);
    if !crate::text::str_eq(head.as_str(), "bytes=") {
        return None;
    }
    let rest: Vec<char> = {
        let mut r: Vec<char> = Vec::new();
        let mut i = m;
        while i < n
            invariant
                m <= i <= n,
                n == v@.len(),
                r@ == v@.subrange(m as int, i as int),
            decreases n - i,
        {
            r.push(v[i]);
            proof {
                assert(v@.subrange(m as int, i + 1) =~= v@.subrange(m as int, i as int).push(v@[i as int]));
            }
            i = i + 1;
        }
        r
    };
    proof {
        lemma_first_index_of(rest@, '-');
    }
    let mut k: usize = 0;
    while k < rest.len() && rest[k] != '-'
        invariant
            k <= rest@.len(),
            forall|j: int| 0 <= j < k ==> rest@[j] != '-',
        decreases rest@.len() - k,
    {
        k = k + 1;
    }
    if k == rest.len() {
        proof {
            lemma_first_index_of(rest@, '-');
            if let Some(q) = first_index_of(rest@, '-') {
                assert(rest@[q] == '-');
            }
        }
        return None;
    }
    proof {
        lemma_first_index_of(rest@, '-');
        match first_index_of(rest@, '-') {
            Some(q) => {
                if q < k {
                    assert(rest@[q] != '-');
                } else if q > k {
                    assert(rest@[k as int] == '-');
                }
            },
            None => {
                assert(rest@[k as int] == '-');
            },
        }
    }
    let first_part: Vec<char> = {
        let mut r: Vec<char> = Vec::new();
        let mut i: usize = 0;
        while i < k
            invariant
                i <= k < rest@.len(),
                r@ == rest@.subrange(0, i as int),
            decreases k - i,
        {
            r.push(rest[i]);
            proof {
                assert(rest@.subrange(0, i + 1) =~= rest@.subrange(0, i as int).push(rest@[i as int]));
            }
            i = i + 1;
        }
        r
    };
    let start = match parse_u64_from(&first_part, 0) {
        Some(s) => s,
        None => {
            proof {
                assert(first_part@.subrange(0, first_part@.len() as int) =~= first_part@);
            }
            return None;
        },
    };
    proof {
        assert(first_part@.subrange(0, first_part@.len() as int) =~= first_part@);
    }
    let last: u64 = if len == 0 { 0 } else { len - 1 };
    let end = match parse_u64_from(&rest, k + 1) {
        Some(e) => e,
        None => last,
    };
    Some((start, if end < last { end } else { last }))
}

/// How a media request is answered.
#[derive(Clone, Copy, Debug, PartialEq, Eq, Structural)]
pub enum MediaReply {
    /// 206: bytes `start..=end` of the file.
    Partial { start: u64, end: u64 },
    /// 200: the whole file.
    Full,
}

/// The answer for a request with an optional parsed range over a file of
/// `len` bytes: a range starting inside the file is served, at most
/// `MEDIA_CHUNK` bytes of it; anything else gets the whole file.
pub open spec fn reply_spec(range: Option<(u64, u64)>, len: u64) -> MediaReply {
    match range {
        Some((start, end)) => if start < len {
            MediaReply::Partial {
                start,
                end: if end < start + MEDIA_CHUNK - 1 { end } else { (start + MEDIA_CHUNK - 1) as u64 },
            }
        } else {
            MediaReply::Full
        },
        None => MediaReply::Full,
    }
}

/// A range the answer can be computed for: its end is not before its
/// start, and its last servable byte fits in a `u64`.
pub open spec fn servable(range: Option<(u64, u64)>, len: u64) -> bool {
    match range {
        Some((start, end)) => start < len ==> start <= end && start + MEDIA_CHUNK - 1 <= u64::MAX,
        None => true,
    }
}

/// Decides the answer to a media request.
pub fn media_reply(range: Option<(u64, u64)>, len: u64) -> (r: MediaReply)
    requires
        servable(range, len),
    ensures
        r == reply_spec(range, len),
{
    match range {
        Some((start, end)) => {
            if start < len {
                let cap: u64 = start + (MEDIA_CHUNK - 1);
                MediaReply::Partial { start, end: if end < cap { end } else { cap } }
            } else {
                MediaReply::Full
            }
        },
        None => MediaReply::Full,
    }
}

/// The answer to a media request when one can be computed: none for a
/// range that starts inside the file but ends before its start (or whose
/// last servable byte would not fit in a `u64`).
pub fn media_answer(range: Option<(u64, u64)>, len: u64) -> (r: Option<MediaReply>)
    ensures
        servable(range, len) ==> r == Some(reply_spec(range, len)),
        !servable(range, len) ==> r is None,
{
    match range {
        Some((start, end)) => {
            if start < len && (end < start || start > u64::MAX - (MEDIA_CHUNK - 1)) {
                return None;
            }
        },
        None => {},
    }
    Some(media_reply(range, len))
}

/// A served range of a parsed header lies within the file and never holds
/// more than `MEDIA_CHUNK` bytes.
pub proof fn lemma_reply_bounded(header: Seq<char>, len: u64)
    requires
        servable(range_spec(header, len), len),
    ensures
        reply_spec(range_spec(header, len), len) matches MediaReply::Partial { start, end } ==> start <= end
            && end - start + 1 <= MEDIA_CHUNK && end < len,
{
}

/// The `Content-Range` header value: `bytes <start>-<end>/<len>`.
pub fn content_range(start: u64, end: u64, len: u64) -> (r: String)
    ensures
        r@ == "bytes "@ + decimal(start as nat) + seq!['-'] + decimal(end as nat) + seq!['/'] + decimal(len as nat),
{
    let mut r = String::new();
    push_str(&mut r, "bytes ");
    push_decimal(&mut r, start);
    push_char(&mut r, '-');
    push_decimal(&mut r, end);
    push_char(&mut r, '/');
    push_decimal(&mut r, len);
    proof {
        assert(r@ =~= "bytes "@ + decimal(start as nat) + seq!['-'] + decimal(end as nat) + seq!['/'] + decimal(
            len as nat,
        ));
    }
    r
}


// ── request paths ───────────────────────────────────────────────────────

/// `s` without its leading `c` characters (`str::trim_start_matches`).
pub open spec fn skip_lead(s: Seq<char>, c: char) -> Seq<char>
    decreases s.len(),
{
    if s.len() > 0 && s[0] == c {
        skip_lead(s.drop_first(), c)
    } else {
        s
    }
}

fn skip_lead_from(v: &Vec<char>, c: char) -> (k: usize)
    ensures
        k <= v@.len(),
        v@.subrange(k as int, v@.len() as int) == skip_lead(v@, c),
{
    let mut k: usize = 0;
    proof {
        assert(v@.subrange(0, v@.len() as int) =~= v@);
    }
    while k < v.len() && v[k] == c
        invariant
            k <= v@.len(),
            skip_lead(v@.subrange(k as int, v@.len() as int), c) == skip_lead(v@, c),
        decreases v@.len() - k,
    {
        proof {
            assert(v@.subrange(k as int, v@.len() as int).drop_first() =~= v@.subrange(k + 1, v@.len() as int));
        }
        k = k + 1;
    }
    proof {
        let rest = v@.subrange(k as int, v@.len() as int);
        if rest.len() > 0 {
            assert(rest[0] == v@[k as int]);
        }
    }
    k
}

/// The file a `media:` request asks for.
#[derive(Clone, Copy, Debug, PartialEq, Eq, Structural)]
pub enum MediaTarget {
    /// `pending/<id>`: a source file waiting in the import room.
    Pending(i64),
    /// `<id>`: a library file.
    File(i64),
    /// Anything else.
    Invalid,
}

pub open spec fn media_target_spec(path: Seq<char>) -> MediaTarget {
    let p = skip_lead(path, '/');
    if p.len() >= 8 && p.subrange(0, 8) == "pending/"@ {
        match parse_i64_spec(p.subrange(8, p.len() as int)) {
            Some(id) => MediaTarget::Pending(id),
            None => MediaTarget::Invalid,
        }
    } else {
        match parse_i64_spec(p) {
            Some(id) => MediaTarget::File(id),
            None => MediaTarget::Invalid,
        }
    }
}

/// Reads the path of a `media:` request.
pub fn media_target(path: &str) -> (t: MediaTarget)
    ensures
        t == media_target_spec(path@),
{
    let v = chars_of(path);
    let k = skip_lead_from(&v, '/');
    let ghost p = v@.subrange(k as int, v@.len() as int);
    let n = v.len();
    if n - k >= 8 {
        let head = string_of(&v, k, k + 8);
        if crate::text::str_eq(head.as_str(), "pending/") {
            proof {
                assert(p.subrange(0, 8) =~= head@);
                assert(p.subrange(8, p.len() as int) =~= v@.subrange(k + 8, n as int));
            }
            return match parse_i64_from(&v, k + 8) {
                Some(id) => MediaTarget::Pending(id),
                None => MediaTarget::Invalid,
            };
        }
        proof {
            assert(p.subrange(0, 8) =~= head@);
        }
    }
    match parse_i64_from(&v, k) {
        Some(id) => MediaTarget::File(id),
        None => MediaTarget::Invalid,
    }
}

/// The plain name of a served encrypted file: every trailing ".mnlock"
/// removed (`str::trim_end_matches`).
pub open spec fn strip_locks(s: Seq<char>) -> Seq<char>
    decreases s.len(),
{
    if s.len() >= 7 && s.subrange(s.len() - 7, s.len() as int) == ".mnlock"@ {
        strip_locks(s.subrange(0, s.len() - 7))
    } else {
        s
    }
}

/// The name a decrypted file is served under, for its media type.
pub fn served_name(path: &str) -> (r: String)
    ensures
        r@ == strip_locks(path@),
{
    let v = chars_of(path);
    let mut n = v.len();
    proof {
        assert(v@.subrange(0, v@.len() as int) =~= v@);
    }
    while n >= 7 && crate::text::str_eq(string_of(&v, n - 7, n).as_str(), ".mnlock")
        invariant
            n <= v@.len(),
            strip_locks(v@.subrange(0, n as int)) == strip_locks(v@),
        decreases n,
    {
        proof {
            let w = v@.subrange(0, n as int);
            assert(w.subrange(w.len() - 7, w.len() as int) =~= v@.subrange(n - 7, n as int));
            assert(w.subrange(0, w.len() - 7) =~= v@.subrange(0, n - 7));
        }
        n = n - 7;
    }
    proof {
        let w = v@.subrange(0, n as int);
        if n >= 7 {
            assert(w.subrange(w.len() - 7, w.len() as int) =~= v@.subrange(n - 7, n as int));
        }
        assert(v@.subrange(0, v@.len() as int) =~= v@);
    }
    string_of(&v, 0, n)
}

/// A `thumb:` request: the content hash (hex) and whether the scrubbing
/// sprite is asked for.
pub open spec fn thumb_request_spec(path: Seq<char>) -> Option<(Seq<char>, bool)> {
    let p = skip_lead(path, '/');
    let (hash, sprite) = if p.len() >= 7 && p.subrange(p.len() - 7, p.len() as int) == ".sprite"@ {
        (p.subrange(0, p.len() - 7), true)
    } else {
        (p, false)
    };
    if hash.len() >= 3 && all_hex(hash) {
        Some((hash, sprite))
    } else {
        None
    }
}

fn hex_chars(v: &Vec<char>, from: usize, to: usize) -> (r: bool)
    requires
        from <= to <= v@.len(),
    ensures
        r == all_hex(v@.subrange(from as int, to as int)),
{
    let mut i = from;
    while i < to
        invariant
            from <= i <= to <= v@.len(),
            all_hex(v@.subrange(from as int, i as int)),
        decreases to - i,
    {
        let c = v[i];
        let ok = ('0' <= c && c <= '9') || ('a' <= c && c <= 'f') || ('A' <= c && c <= 'F');
        if !ok {
            proof {
                assert(v@.subrange(from as int, to as int)[i - from] == c);
                assert(hex_value(c) is None);
            }
            return false;
        }
        proof {
            let w = v@.subrange(from as int, i + 1);
            assert forall|q: int| 0 <= q < w.len() implies #[trigger] hex_value(w[q]) is Some by {
                if q < w.len() - 1 {
                    assert(w[q] == v@.subrange(from as int, i as int)[q]);
                }
            }
        }
        i = i + 1;
    }
    true
}

/// Reads the path of a `thumb:` request; nothing unless it names a
/// hexadecimal hash of at least three digits.
pub fn thumb_request(path: &str) -> (r: Option<(String, bool)>)
    ensures
        match thumb_request_spec(path@) {
            Some((h, sprite)) => r matches Some((rh, rs)) && rh@ == h && rs == sprite,
            None => r is None,
        },
{
    let v = chars_of(path);
    let k = skip_lead_from(&v, '/');
    let n = v.len();
    let ghost p = v@.subrange(k as int, n as int);
    let mut end = n;
    let mut sprite = false;
    if n - k >= 7 {
        let tail = string_of(&v, n - 7, n);
        proof {
            assert(p.subrange(p.len() - 7, p.len() as int) =~= tail@);
        }
        if crate::text::str_eq(tail.as_str(), ".sprite") {
            end = n - 7;
            sprite = true;
        }
    }
    proof {
        if sprite {
            assert(p.subrange(0, p.len() - 7) =~= v@.subrange(k as int, end as int));
        } else {
            assert(p =~= v@.subrange(k as int, end as int));
        }
    }
    if end - k < 3 || !hex_chars(&v, k, end) {
        return None;
    }
    Some((string_of(&v, k, end), sprite))
}

// ── thumbnails ──────────────────────────────────────────────────────────

/// Where the thumbnail of content `hash_hex` lives: `<dir>/<first two
/// digits>/<hash>.webp`.
pub open spec fn thumb_spec(dir: Seq<char>, hash_hex: Seq<char>, suffix: Seq<char>) -> Seq<char> {
    join_spec(join_spec(dir, hash_hex.subrange(0, 2)), hash_hex + suffix)
}

/// The thumbnail path of content `hash_hex` in the folder `thumbs_dir`.
pub fn thumb_path(thumbs_dir: &str, hash_hex: &str) -> (r: String)
    requires
        hash_hex@.len() >= 2,
    ensures
        r@ == thumb_spec(thumbs_dir@, hash_hex@, ".webp"@),
{
    let v = chars_of(hash_hex);
    let sub = string_of(&v, 0, 2);
    let dir = crate::text::join_path(thumbs_dir, sub.as_str());
    let mut name = String::from_str(hash_hex);
    push_str(&mut name, ".webp");
    crate::text::join_path(dir.as_str(), name.as_str())
}

/// The scrubbing sprite path of video content `hash_hex`.
pub fn sprite_path(thumbs_dir: &str, hash_hex: &str) -> (r: String)
    requires
        hash_hex@.len() >= 2,
    ensures
        r@ == thumb_spec(thumbs_dir@, hash_hex@, ".sprite.webp"@),
{
    let v = chars_of(hash_hex);
    let sub = string_of(&v, 0, 2);
    let dir = crate::text::join_path(thumbs_dir, sub.as_str());
    let mut name = String::from_str(hash_hex);
    push_str(&mut name, ".sprite.webp");
    crate::text::join_path(dir.as_str(), name.as_str())
}

// ── kinds of files ──────────────────────────────────────────────────────

/// The extension of a path's file name as `Path::extension` reads it: after
/// the last '.', unless that dot opens the name or the name is "..".
pub open spec fn path_ext(path: Seq<char>) -> Option<Seq<char>> {
    let name = crate::text::split_parent_spec(path).1;
    if name == ".."@ {
        None
    } else {
        match last_index_of(name, '.') {
            Some(k) => if k == 0 {
                None
            } else {
                Some(name.subrange(k + 1, name.len() as int))
            },
            None => None,
        }
    }
}

pub open spec fn photo_ext(e: Seq<char>) -> bool {
    e == "jpg"@ || e == "jpeg"@ || e == "png"@ || e == "heic"@ || e == "webp"@ || e == "gif"@ || e == "bmp"@
        || e == "tiff"@ || e == "tif"@ || e == "dng"@ || e == "cr2"@ || e == "nef"@ || e == "arw"@
}

pub open spec fn video_ext(e: Seq<char>) -> bool {
    e == "mp4"@ || e == "mov"@ || e == "avi"@ || e == "mkv"@ || e == "m4v"@ || e == "mts"@ || e == "wmv"@
        || e == "3gp"@
}

/// 0 for a photo, 1 for a video, by extension (in any case); nothing for
/// other files.
pub open spec fn kind_spec(path: Seq<char>) -> Option<i64> {
    match path_ext(path) {
        Some(e) => if photo_ext(ascii_lower_seq(e)) {
            Some(0)
        } else if video_ext(ascii_lower_seq(e)) {
            Some(1)
        } else {
            None
        },
        None => None,
    }
}

/// The kind of a media file by its path.
pub fn kind_of(path: &str) -> (k: Option<i64>)
    ensures
        k == kind_spec(path@),
{
    let (_, name) = crate::text::split_parent(path);
    if crate::text::str_eq(name.as_str(), "..") {
        return None;
    }
    let v = chars_of(name.as_str());
    let n = v.len();
    proof {
        crate::text::lemma_last_index_of_bounds(v@, '.');
    }
    let k = match rfind_char(&v, '.') {
        Some(k) => k,
        None => return None,
    };
    if k == 0 {
        return None;
    }
    proof {
        assert(k < n);
    }
    let e = lower_from(&v, k + 1);
    if chars_are(&e, "jpg") || chars_are(&e, "jpeg") || chars_are(&e, "png") || chars_are(&e, "heic")
        || chars_are(&e, "webp") || chars_are(&e, "gif") || chars_are(&e, "bmp") || chars_are(&e, "tiff")
        || chars_are(&e, "tif") || chars_are(&e, "dng") || chars_are(&e, "cr2") || chars_are(&e, "nef")
        || chars_are(&e, "arw") {
        Some(0)
    } else if chars_are(&e, "mp4") || chars_are(&e, "mov") || chars_are(&e, "avi") || chars_are(&e, "mkv")
        || chars_are(&e, "m4v") || chars_are(&e, "mts") || chars_are(&e, "wmv") || chars_are(&e, "3gp") {
        Some(1)
    } else {
        None
    }
}

/// The last `x` of `a + b` is that of `a` when `b` holds no `x`.
proof fn lemma_last_index_skip(a: Seq<char>, b: Seq<char>, x: char)
    requires
        forall|i: int| 0 <= i < b.len() ==> #[trigger] b[i] != x,
    ensures
        last_index_of(a + b, x) == last_index_of(a, x),
    decreases b.len(),
{
    if b.len() == 0 {
        assert(a + b =~= a);
    } else {
        let b0 = b.drop_last();
        assert(b[b.len() - 1] != x);
        assert forall|i: int| 0 <= i < b0.len() implies #[trigger] b0[i] != x by {
            assert(b0[i] == b[i]);
        }
        lemma_last_index_skip(a, b0, x);
        assert((a + b).drop_last() =~= a + b0);
    }
}

/// Files are told apart by extension, in any case: a path that ends in a
/// '.' and an extension (after a non-empty name) is a photo for `jpg`,
/// `jpeg`, `png`, `heic`, `webp`, `gif`, `bmp`, `tiff`, `tif`, `dng`,
/// `cr2`, `nef` and `arw`, a video for `mp4`, `mov`, `avi`, `mkv`, `m4v`,
/// `mts`, `wmv` and `3gp`, and no media file for any other extension.
pub proof fn lemma_kind_by_extension(stem: Seq<char>, e: Seq<char>)
    requires
        stem.len() > 0,
        stem.last() != '/',
        forall|i: int| 0 <= i < e.len() ==> #[trigger] e[i] != '.' && e[i] != '/',
    ensures
        ({
            let x = ascii_lower_seq(e);
            let photo = x == "jpg"@ || x == "jpeg"@ || x == "png"@ || x == "heic"@ || x == "webp"@ || x == "gif"@
                || x == "bmp"@ || x == "tiff"@ || x == "tif"@ || x == "dng"@ || x == "cr2"@ || x == "nef"@
                || x == "arw"@;
            let video = x == "mp4"@ || x == "mov"@ || x == "avi"@ || x == "mkv"@ || x == "m4v"@ || x == "mts"@
                || x == "wmv"@ || x == "3gp"@;
            &&& photo ==> kind_spec(stem + seq!['.'] + e) == Some(0i64)
            &&& video ==> kind_spec(stem + seq!['.'] + e) == Some(1i64)
            &&& !photo && !video ==> kind_spec(stem + seq!['.'] + e) is None
        }),
{
    reveal_strlit("jpg");
    reveal_strlit("jpeg");
    reveal_strlit("png");
    reveal_strlit("heic");
    reveal_strlit("webp");
    reveal_strlit("gif");
    reveal_strlit("bmp");
    reveal_strlit("tiff");
    reveal_strlit("tif");
    reveal_strlit("dng");
    reveal_strlit("cr2");
    reveal_strlit("nef");
    reveal_strlit("arw");
    reveal_strlit("mp4");
    reveal_strlit("mov");
    reveal_strlit("avi");
    reveal_strlit("mkv");
    reveal_strlit("m4v");
    reveal_strlit("mts");
    reveal_strlit("wmv");
    reveal_strlit("3gp");
    reveal_strlit("..");
    let path = stem + seq!['.'] + e;
    let tail = seq!['.'] + e;
    assert(path =~= stem + tail);
    assert forall|i: int| 0 <= i < tail.len() implies #[trigger] tail[i] != '/' by {
        if i > 0 {
            assert(tail[i] == e[i - 1]);
        }
    }
    lemma_last_index_skip(stem, tail, '/');
    crate::text::lemma_last_index_of(stem, '/');
    let q = match last_index_of(stem, '/') {
        Some(k) => stem.subrange(k + 1, stem.len() as int),
        None => stem,
    };
    assert(q.len() > 0);
    let name = crate::text::split_parent_spec(path).1;
    match last_index_of(stem, '/') {
        Some(k) => {
            assert(name =~= q + tail);
        },
        None => {
            assert(name =~= q + tail);
        },
    }
    assert forall|i: int| 0 <= i < e.len() implies #[trigger] e[i] != '.' by {}
    lemma_last_index_skip(q.push('.'), e, '.');
    assert(name =~= q.push('.') + e);
    assert(last_index_of(q.push('.'), '.') == Some(q.len() as int));
    assert(name.subrange(q.len() + 1int, name.len() as int) =~= e);
    if name == ".."@ {
        assert(name.len() == 2);
        assert(e.len() == 0);
        assert(ascii_lower_seq(e).len() == 0);
    } else {
        assert(path_ext(path) == Some(e));
        let x = ascii_lower_seq(e);
        if x == "mp4"@ || x == "mov"@ || x == "avi"@ || x == "mkv"@ || x == "m4v"@ || x == "mts"@ || x == "wmv"@
            || x == "3gp"@ {
            assert(x.len() == 3);
            assert(x[0] == 'm' || x[0] == 'a' || x[0] == 'w' || x[0] == '3');
            assert(x[0] == 'a' ==> x[1] == 'v');
            assert(!photo_ext(x));
        }
    }
}

/// `f` is `e` with some capital ASCII letters written in lower case.
pub open spec fn lowered_somewhere(e: Seq<char>, f: Seq<char>) -> bool {
    &&& e.len() == f.len()
    &&& forall|i: int|
        0 <= i < e.len() ==> #[trigger] e[i] == f[i] || ('a' <= f[i] <= 'z' && e[i] as int + 32 == f[i] as int)
}

/// The case of an extension does not matter: `IMG.JPG`, `img.jpg` and
/// `Img.Jpg` are the same kind of file.
pub proof fn lemma_kind_ignores_case(stem: Seq<char>, e: Seq<char>, f: Seq<char>)
    requires
        stem.len() > 0,
        stem.last() != '/',
        forall|i: int| 0 <= i < e.len() ==> #[trigger] e[i] != '.' && e[i] != '/',
        lowered_somewhere(e, f),
    ensures
        kind_spec(stem + seq!['.'] + f) == kind_spec(stem + seq!['.'] + e),
{
    assert forall|i: int| 0 <= i < f.len() implies #[trigger] f[i] != '.' && f[i] != '/' by {
        assert(e[i] == f[i] || ('a' <= f[i] <= 'z'));
    }
    assert forall|i: int| 0 <= i < e.len() implies crate::text::ascii_lower(#[trigger] e[i]) == crate::text::ascii_lower(
        f[i],
    ) by {
        if e[i] != f[i] {
            assert('A' <= e[i] <= 'Z');
            assert(((e[i] as int + 32) as u8) as char == f[i]);
        }
    }
    assert(ascii_lower_seq(e) =~= ascii_lower_seq(f));
    lemma_kind_by_extension(stem, e);
    lemma_kind_by_extension(stem, f);
}

// ── orientation ─────────────────────────────────────────────────────────

/// A step that puts a photo upright.
#[derive(Clone, Copy, Debug, PartialEq, Eq, Structural)]
pub enum ImageOp {
    FlipHorizontal,
    FlipVertical,
    Rotate90,
    Rotate180,
    Rotate270,
}

/// The steps for an EXIF orientation (1 and unknown values need none).
pub open spec fn orientation_spec(o: u32) -> Seq<ImageOp> {
    if o == 2 {
        seq![ImageOp::FlipHorizontal]
    } else if o == 3 {
        seq![ImageOp::Rotate180]
    } else if o == 4 {
        seq![ImageOp::FlipVertical]
    } else if o == 5 {
        seq![ImageOp::Rotate90, ImageOp::FlipHorizontal]
    } else if o == 6 {
        seq![ImageOp::Rotate90]
    } else if o == 7 {
        seq![ImageOp::Rotate270, ImageOp::FlipHorizontal]
    } else if o == 8 {
        seq![ImageOp::Rotate270]
    } else {
        Seq::empty()
    }
}

/// The steps, in order, that put a photo with EXIF orientation `o` upright.
pub fn orientation_ops(o: u32) -> (ops: Vec<ImageOp>)
    ensures
        ops@ == orientation_spec(o),
{
    let mut ops: Vec<ImageOp> = Vec::new();
    if o == 2 {
        ops.push(ImageOp::FlipHorizontal);
    } else if o == 3 {
        ops.push(ImageOp::Rotate180);
    } else if o == 4 {
        ops.push(ImageOp::FlipVertical);
    } else if o == 5 {
        ops.push(ImageOp::Rotate90);
        ops.push(ImageOp::FlipHorizontal);
    } else if o == 6 {
        ops.push(ImageOp::Rotate90);
    } else if o == 7 {
        ops.push(ImageOp::Rotate270);
        ops.push(ImageOp::FlipHorizontal);
    } else if o == 8 {
        ops.push(ImageOp::Rotate270);
    }
    proof {
        assert(ops@ =~= orientation_spec(o));
    }
    ops
}

// ── hashes and placeholders ─────────────────────────────────────────────

/// The 32-byte BLAKE3 hash of some bytes.
pub uninterp spec fn blake3_digest(input: Seq<u8>) -> Seq<u8>;

/// `blake3::hash`: the 32-byte hash of the input.
#[verifier::external_body]
fn blake3_hash(input: &[u8]) -> (h: Vec<u8>)
    ensures
        h@ == blake3_digest(input@),
        h@.len() == 32,
{
    blake3::hash(input).as_bytes().to_vec()
}

/// The BLAKE3 hash of a file's whole content, from its bytes.
pub fn content_hash(bytes: &[u8]) -> (h: Vec<u8>)
    ensures
        h@ == blake3_digest(bytes@),
        h@.len() == 32,
{
    blake3_hash(bytes)
}

/// Bytes read from each end of a video for its quick hash.
pub const QUICK_CHUNK: u64 = 1048576;

/// Where the quick hash of a video of `len` bytes reads its tail: the last
/// `QUICK_CHUNK` bytes, only when the file is longer than two of them.
pub fn quick_tail_from(len: u64) -> (r: Option<u64>)
    ensures
        len > 2 * QUICK_CHUNK ==> r == Some((len - QUICK_CHUNK) as u64),
        len <= 2 * QUICK_CHUNK ==> r is None,
{
    if len > 2 * QUICK_CHUNK {
        Some(len - QUICK_CHUNK)
    } else {
        None
    }
}

/// The quick hash of a video: BLAKE3 over its length (8 bytes, LE), the
/// bytes read from its start and, for a long file, its last bytes.
pub fn quick_hash(len: u64, head: &[u8], tail: &[u8]) -> (h: Vec<u8>)
    ensures
        h@ == blake3_digest(crate::crypto::le8(len) + head@ + tail@),
        h@.len() == 32,
{
    let mut input: Vec<u8> = Vec::new();
    let mut k: u64 = 0;
    while k < 8
        invariant
            k <= 8,
            input@ == crate::crypto::le8(len).subrange(0, k as int),
        decreases 8 - k,
    {
        input.push(((len >> (8 * k)) & 0xff) as u8);
        proof {
            assert(crate::crypto::le8(len).subrange(0, k + 1) =~= crate::crypto::le8(len).subrange(0, k as int).push(
                crate::crypto::le8(len)[k as int],
            ));
        }
        k = k + 1;
    }
    proof {
        assert(crate::crypto::le8(len).subrange(0, 8) =~= crate::crypto::le8(len));
    }
    let ghost pre = input@;
    let mut i: usize = 0;
    while i < head.len()
        invariant
            i <= head@.len(),
            input@ == pre + head@.subrange(0, i as int),
        decreases head@.len() - i,
    {
        input.push(head[i]);
        proof {
            assert(head@.subrange(0, i + 1) =~= head@.subrange(0, i as int).push(head@[i as int]));
        }
        i = i + 1;
    }
    proof {
        assert(head@.subrange(0, head@.len() as int) =~= head@);
    }
    let ghost mid = input@;
    let mut j: usize = 0;
    while j < tail.len()
        invariant
            j <= tail@.len(),
            input@ == mid + tail@.subrange(0, j as int),
        decreases tail@.len() - j,
    {
        input.push(tail[j]);
        proof {
            assert(tail@.subrange(0, j + 1) =~= tail@.subrange(0, j as int).push(tail@[j as int]));
        }
        j = j + 1;
    }
    proof {
        assert(tail@.subrange(0, tail@.len() as int) =~= tail@);
        assert(input@ =~= crate::crypto::le8(len) + head@ + tail@);
    }
    blake3_hash(input.as_slice())
}

/// The quick hash reads the file length first: files of different lengths
/// never hand the same bytes to BLAKE3.
pub proof fn lemma_quick_hash_input_length(l1: u64, h1: Seq<u8>, t1: Seq<u8>, l2: u64, h2: Seq<u8>, t2: Seq<u8>)
    requires
        l1 != l2,
    ensures
        crate::crypto::le8(l1) + h1 + t1 != crate::crypto::le8(l2) + h2 + t2,
{
    let a = crate::crypto::le8(l1) + h1 + t1;
    let b = crate::crypto::le8(l2) + h2 + t2;
    if a == b {
        assert(a.subrange(0, 8) =~= crate::crypto::le8(l1));
        assert(b.subrange(0, 8) =~= crate::crypto::le8(l2));
        crate::crypto::lemma_le8_roundtrip(l1);
        crate::crypto::lemma_le8_roundtrip(l2);
    }
}

/// A character of the base-83 alphabet that blurhash strings are written in:
/// digits, letters and `#$%*+,-.:;=?@[]^_{|}~`.
pub open spec fn is_base83(c: char) -> bool {
    ||| '0' <= c <= '9'
    ||| 'A' <= c <= 'Z'
    ||| 'a' <= c <= 'z'
    ||| c == '#' || c == '$' || c == '%' || c == '*' || c == '+' || c == ',' || c == '-' || c == '.'
    ||| c == ':' || c == ';' || c == '=' || c == '?' || c == '@' || c == '[' || c == ']' || c == '^'
    ||| c == '_' || c == '{' || c == '|' || c == '}' || c == '~'
}

/// `blurhash::encode` with 4×3 components over RGBA pixels. With these
/// components the crate's encoder does not fail and writes 28 characters
/// (1 + 1 + 4 + 2 for each of the 11 AC components), each taken from its
/// base-83 alphabet; the first encodes the component counts,
/// `(4 - 1) + (3 - 1) * 9 = 21`, which is `L`. The encoder computes the
/// bytes of a row, `4 * width`, in `u32`, hence the bound on the width even
/// for an image without rows. Which of the other
/// characters comes out is decided by floating-point arithmetic and is
/// left unsaid.
#[verifier::external_body]
fn blurhash_4x3(width: u32, height: u32, rgba: &[u8]) -> (r: String)
    requires
        rgba@.len() == 4 * width * height,
        4 * width * height <= u32::MAX,
        4 * width <= u32::MAX,
    ensures
        r@.len() == 28,
        r@[0] == 'L',
        forall|i: int| 0 <= i < 28 ==> is_base83(#[trigger] r@[i]),
{
    blurhash::encode(4, 3, width, height, rgba).unwrap_or_default()
}

/// The blurhash placeholder of a small RGBA image (4×3 components): 28
/// base-83 characters, the first `L` for four by three components.
pub fn make_blurhash(width: u32, height: u32, rgba: &[u8]) -> (r: Option<String>)
    requires
        rgba@.len() == 4 * width * height,
        4 * width * height <= u32::MAX,
        4 * width <= u32::MAX,
    ensures
        r matches Some(s) && s@.len() == 28 && s@[0] == 'L' && forall|i: int| 0 <= i < 28 ==> is_base83(
            #[trigger] s@[i],
        ),
{
    Some(blurhash_4x3(width, height, rgba))
}

} // verus!
