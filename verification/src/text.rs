//! Character-level string helpers shared by the other modules: building
//! strings, decimal and hexadecimal digits, path components, replacement
//! and trimming.

use vstd::prelude::*;
use vstd::string::StringExecFns;

verus! {

/// Appends one character to a string.
#[verifier::external_body]
pub(crate) fn push_char(s: &mut String, c: char)
    ensures
        final(s)@ == old(s)@.push(c),
{
    s.push(c);
}

/// Appends a string slice to a string.
pub(crate) fn push_str(s: &mut String, t: &str)
    ensures
        final(s)@ == old(s)@ + t@,
{
    s.append(t);
}

/// The characters of a string slice, in order.
pub fn chars_of(s: &str) -> (v: Vec<char>)
    ensures
        v@ == s@,
{
    let mut v: Vec<char> = Vec::new();
    for c in it: s.chars()
        invariant
            v@ == it.seq().take(it.index()),
            it.seq() == s@,
    {
        v.push(c);
    }
    v
}

/// The string made of the characters `v[from..to]`.
pub fn string_of(v: &Vec<char>, from: usize, to: usize) -> (s: String)
    requires
        from <= to <= v@.len(),
    ensures
        s@ == v@.subrange(from as int, to as int),
{
    let mut s = String::new();
    let mut i = from;
    while i < to
        invariant
            from <= i <= to <= v@.len(),
            s@ == v@.subrange(from as int, i as int),
        decreases to - i,
    {
        push_char(&mut s, v[i]);
        proof {
            assert(v@.subrange(from as int, i + 1) =~= v@.subrange(from as int, i as int).push(v@[i as int]));
        }
        i = i + 1;
    }
    s
}

/// Two string slices hold the same characters.
pub fn str_eq(a: &str, b: &str) -> (r: bool)
    ensures
        r == (a@ == b@),
{
    let x = chars_of(a);
    let y = chars_of(b);
    if x.len() != y.len() {
        return false;
    }
    let mut i: usize = 0;
    while i < x.len()
        invariant
            x@ == a@,
            y@ == b@,
            x@.len() == y@.len(),
            i <= x@.len(),
            forall|k: int| 0 <= k < i ==> x@[k] == y@[k],
        decreases x@.len() - i,
    {
        if x[i] != y[i] {
            proof {
                assert(x@[i as int] != y@[i as int]);
            }
            return false;
        }
        i = i + 1;
    }
    proof {
        assert(x@ =~= y@);
    }
    true
}

// ── digits ──────────────────────────────────────────────────────────────

/// The character of a decimal digit.
pub open spec fn digit_char(d: nat) -> char {
    ((d + 48) as u8) as char
}

/// The decimal representation of `n`, without leading zeros.
pub open spec fn decimal(n: nat) -> Seq<char>
    decreases n,
{
    if n < 10 {
        seq![digit_char(n)]
    } else {
        decimal(n / 10).push(digit_char(n % 10))
    }
}

/// Appends the decimal digits of `n`.
pub(crate) fn push_decimal(s: &mut String, n: u64)
    ensures
        final(s)@ == old(s)@ + decimal(n as nat),
    decreases n,
{
    if n >= 10 {
        push_decimal(s, n / 10);
    }
    let d: u8 = (n % 10) as u8;
    push_char(s, (d + 48u8) as char);
    proof {
        assert(((d + 48) as u8) as char == digit_char((n % 10) as nat));
    }
}

/// The decimal text of a signed integer, with a leading '-' when negative.
pub open spec fn signed_decimal(n: int) -> Seq<char> {
    if n < 0 {
        seq!['-'] + decimal((-n) as nat)
    } else {
        decimal(n as nat)
    }
}

/// Appends the decimal text of a signed integer.
pub(crate) fn push_signed(s: &mut String, n: i64)
    ensures
        final(s)@ == old(s)@ + signed_decimal(n as int),
{
    if n < 0 {
        push_char(s, '-');
        let m: u64 = if n == i64::MIN { 9223372036854775808u64 } else { (-n) as u64 };
        push_decimal(s, m);
        proof {
            assert(old(s)@.push('-') + decimal(m as nat) =~= old(s)@ + (seq!['-'] + decimal(m as nat)));
        }
    } else {
        push_decimal(s, n as u64);
    }
}

/// The lower-case hexadecimal digit of a nibble.
pub open spec fn hex_digit(d: nat) -> char {
    if d < 10 {
        ((d + 48) as u8) as char
    } else {
        ((d + 87) as u8) as char
    }
}

/// Two lower-case hexadecimal digits per byte.
pub open spec fn hex_spec(b: Seq<u8>) -> Seq<char>
    decreases b.len(),
{
    if b.len() == 0 {
        Seq::empty()
    } else {
        hex_spec(b.drop_last()).push(hex_digit((b.last() / 16) as nat)).push(hex_digit((b.last() % 16) as nat))
    }
}

fn hex_char(d: u8) -> (c: char)
    requires
        d < 16,
    ensures
        c == hex_digit(d as nat),
{
    if d < 10 {
        (d + 48u8) as char
    } else {
        (d + 87u8) as char
    }
}

/// The bytes as lower-case hexadecimal text.
pub fn hex(bytes: &[u8]) -> (s: String)
    ensures
        s@ == hex_spec(bytes@),
        s@.len() == 2 * bytes@.len(),
{
    let mut s = String::new();
    let mut i: usize = 0;
    while i < bytes.len()
        invariant
            i <= bytes@.len(),
            s@ == hex_spec(bytes@.subrange(0, i as int)),
            s@.len() == 2 * i,
        decreases bytes@.len() - i,
    {
        let b = bytes[i];
        push_char(&mut s, hex_char(b / 16));
        push_char(&mut s, hex_char(b % 16));
        proof {
            let pre = bytes@.subrange(0, i + 1);
            assert(pre.drop_last() =~= bytes@.subrange(0, i as int));
            assert(pre.last() == b);
        }
        i = i + 1;
    }
    proof {
        assert(bytes@.subrange(0, bytes@.len() as int) =~= bytes@);
    }
    s
}

/// The value of a hexadecimal digit (either case), if it is one.
pub open spec fn hex_value(c: char) -> Option<nat> {
    if '0' <= c && c <= '9' {
        Some((c as nat - 48) as nat)
    } else if 'a' <= c && c <= 'f' {
        Some((c as nat - 87) as nat)
    } else if 'A' <= c && c <= 'F' {
        Some((c as nat - 55) as nat)
    } else {
        None
    }
}

/// Every character is a hexadecimal digit.
pub open spec fn all_hex(s: Seq<char>) -> bool {
    forall|i: int| 0 <= i < s.len() ==> #[trigger] hex_value(s[i]) is Some
}

fn hex_value_of(c: char) -> (r: Option<u8>)
    ensures
        match hex_value(c) {
            Some(v) => r == Some(v as u8) && v < 16,
            None => r is None,
        },
{
    if '0' <= c && c <= '9' {
        Some((c as u32 - 48) as u8)
    } else if 'a' <= c && c <= 'f' {
        Some((c as u32 - 87) as u8)
    } else if 'A' <= c && c <= 'F' {
        Some((c as u32 - 55) as u8)
    } else {
        None
    }
}

/// The bytes written by an even number of hexadecimal digits.
pub open spec fn unhex_spec(s: Seq<char>) -> Seq<u8>
    decreases s.len(),
{
    if s.len() < 2 {
        Seq::empty()
    } else {
        let k = s.len() - 2;
        unhex_spec(s.subrange(0, k)).push((hex_value(s[k]).unwrap() * 16 + hex_value(s[k + 1]).unwrap()) as u8)
    }
}

/// Reads pairs of hexadecimal digits as bytes; nothing when a character is
/// not a hexadecimal digit or the count is odd.
pub fn unhex(s: &str) -> (r: Option<Vec<u8>>)
    ensures
        (all_hex(s@) && s@.len() % 2 == 0) ==> (r matches Some(v) && v@ == unhex_spec(s@)),
        !(all_hex(s@) && s@.len() % 2 == 0) ==> r is None,
{
    let cs = chars_of(s);
    if cs.len() % 2 != 0 {
        return None;
    }
    let mut out: Vec<u8> = Vec::new();
    let mut i: usize = 0;
    while i < cs.len()
        invariant
            cs@ == s@,
            cs@.len() % 2 == 0,
            i <= cs@.len(),
            i % 2 == 0,
            all_hex(cs@.subrange(0, i as int)),
            out@ == unhex_spec(cs@.subrange(0, i as int)),
        decreases cs@.len() - i,
    {
        let hi = hex_value_of(cs[i]);
        let lo = hex_value_of(cs[i + 1]);
        match (hi, lo) {
            (Some(h), Some(l)) => {
                out.push(h * 16 + l);
                proof {
                    let pre = cs@.subrange(0, i + 2);
                    assert(pre.subrange(0, i as int) =~= cs@.subrange(0, i as int));
                    assert(pre[i as int] == cs@[i as int] && pre[i + 1] == cs@[i + 1]);
                    assert forall|k: int| 0 <= k < pre.len() implies #[trigger] hex_value(pre[k]) is Some by {
                        if k < i {
                            assert(pre[k] == cs@.subrange(0, i as int)[k]);
                        }
                    }
                }
            },
            _ => {
                proof {
                    if hex_value(cs@[i as int]) is Some {
                        assert(hex_value(s@[i + 1]) is None);
                    } else {
                        assert(hex_value(s@[i as int]) is None);
                    }
                }
                return None;
            },
        }
        i = i + 2;
    }
    proof {
        assert(cs@.subrange(0, cs@.len() as int) =~= cs@);
    }
    Some(out)
}

/// Hexadecimal text reads back as the bytes it was written from.
pub proof fn lemma_unhex_hex(b: Seq<u8>)
    ensures
        all_hex(hex_spec(b)),
        hex_spec(b).len() == 2 * b.len(),
        unhex_spec(hex_spec(b)) == b,
    decreases b.len(),
{
    if b.len() > 0 {
        lemma_unhex_hex(b.drop_last());
        let h = hex_spec(b);
        let p = hex_spec(b.drop_last());
        let x = b.last();
        let hi = (x / 16) as nat;
        let lo = (x % 16) as nat;
        assert(h == p.push(hex_digit(hi)).push(hex_digit(lo)));
        assert(hex_value(hex_digit(hi)) == Some(hi)) by {
            if hi < 10 {
                assert(hex_digit(hi) as nat == hi + 48);
            } else {
                assert(hex_digit(hi) as nat == hi + 87);
            }
        }
        assert(hex_value(hex_digit(lo)) == Some(lo)) by {
            if lo < 10 {
                assert(hex_digit(lo) as nat == lo + 48);
            } else {
                assert(hex_digit(lo) as nat == lo + 87);
            }
        }
        assert(h.subrange(0, h.len() - 2) =~= p);
        assert forall|i: int| 0 <= i < h.len() implies #[trigger] hex_value(h[i]) is Some by {
            if i < p.len() {
                assert(h[i] == p[i]);
            }
        }
        assert(b =~= b.drop_last().push(x));
    }
}

// ── path components ─────────────────────────────────────────────────────

/// Position of the last `c` in `s`, if any.
pub open spec fn last_index_of(s: Seq<char>, c: char) -> Option<int>
    decreases s.len(),
{
    if s.len() == 0 {
        None
    } else if s.last() == c {
        Some(s.len() - 1)
    } else {
        last_index_of(s.drop_last(), c)
    }
}

pub(crate) proof fn lemma_last_index_of(s: Seq<char>, c: char)
    ensures
        match last_index_of(s, c) {
            Some(k) => 0 <= k < s.len() && s[k] == c && forall|j: int| k < j < s.len() ==> s[j] != c,
            None => forall|j: int| 0 <= j < s.len() ==> s[j] != c,
        },
    decreases s.len(),
{
    if s.len() > 0 {
        lemma_last_index_of(s.drop_last(), c);
        if s.last() != c {
            match last_index_of(s.drop_last(), c) {
                Some(k) => {
                    assert forall|j: int| k < j < s.len() implies s[j] != c by {
                        if j < s.len() - 1 {
                            assert(s[j] == s.drop_last()[j]);
                        }
                    }
                },
                None => {
                    assert forall|j: int| 0 <= j < s.len() implies s[j] != c by {
                        if j < s.len() - 1 {
                            assert(s[j] == s.drop_last()[j]);
                        }
                    }
                },
            }
        }
    }
}

/// Where the last `c` lies, when there is one.
pub proof fn lemma_last_index_of_bounds(s: Seq<char>, c: char)
    ensures
        last_index_of(s, c) matches Some(k) ==> 0 <= k < s.len() && s[k] == c,
{
    lemma_last_index_of(s, c);
}

/// Finds the last `c` in `v`.
pub(crate) fn rfind_char(v: &Vec<char>, c: char) -> (r: Option<usize>)
    ensures
        match last_index_of(v@, c) {
            Some(k) => r == Some(k as usize),
            None => r is None,
        },
{
    proof {
        lemma_last_index_of(v@, c);
    }
    let mut i = v.len();
    while i > 0
        invariant
            i <= v@.len(),
            forall|j: int| i <= j < v@.len() ==> v@[j] != c,
        decreases i,
    {
        if v[i - 1] == c {
            proof {
                assert(last_index_of(v@, c) == Some((i - 1) as int)) by {
                    lemma_last_index_of(v@, c);
                    match last_index_of(v@, c) {
                        Some(k) => {
                            if k < i - 1 {
                                assert(v@[i - 1] != c);
                            }
                        },
                        None => {
                            assert(v@[i - 1] != c);
                        },
                    }
                }
            }
            return Some(i - 1);
        }
        i = i - 1;
    }
    proof {
        match last_index_of(v@, c) {
            Some(k) => {
                assert(v@[k] != c);
            },
            None => {},
        }
    }
    None
}

/// The directory part and the file name of a relative path (split at the
/// last '/'; a path without '/' lies in the root, "").
pub open spec fn split_parent_spec(s: Seq<char>) -> (Seq<char>, Seq<char>) {
    match last_index_of(s, '/') {
        Some(k) => (s.subrange(0, k), s.subrange(k + 1, s.len() as int)),
        None => (Seq::empty(), s),
    }
}

/// Splits a relative path into its directory and its file name.
pub fn split_parent(rel: &str) -> (r: (String, String))
    ensures
        (r.0@, r.1@) == split_parent_spec(rel@),
{
    let v = chars_of(rel);
    match rfind_char(&v, '/') {
        Some(k) => {
            proof {
                lemma_last_index_of(v@, '/');
            }
            (string_of(&v, 0, k), string_of(&v, k + 1, v.len()))
        },
        None => {
            proof {
                assert(v@.subrange(0, v@.len() as int) =~= v@);
            }
            (String::new(), string_of(&v, 0, v.len()))
        },
    }
}

/// `dir` and `name` joined by '/', or `name` alone when `dir` is empty.
pub open spec fn join_spec(dir: Seq<char>, name: Seq<char>) -> Seq<char> {
    if dir.len() == 0 {
        name
    } else {
        dir + seq!['/'] + name
    }
}

/// Joins a directory and a name into a relative path.
pub fn join_path(dir: &str, name: &str) -> (r: String)
    ensures
        r@ == join_spec(dir@, name@),
{
    let mut r = String::new();
    push_str(&mut r, dir);
    if r.as_str().unicode_len() > 0 {
        push_char(&mut r, '/');
    }
    push_str(&mut r, name);
    proof {
        if dir@.len() > 0 {
            assert(r@ =~= dir@ + seq!['/'] + name@);
        } else {
            assert(r@ =~= name@);
        }
    }
    r
}

/// A path is rebuilt from its directory and its file name.
pub proof fn lemma_split_join(s: Seq<char>)
    requires
        !(last_index_of(s, '/') == Some(0int)),
    ensures
        join_spec(split_parent_spec(s).0, split_parent_spec(s).1) == s,
{
    lemma_last_index_of(s, '/');
    match last_index_of(s, '/') {
        Some(k) => {
            assert(s.subrange(0, k) + seq!['/'] + s.subrange(k + 1, s.len() as int) =~= s);
        },
        None => {},
    }
}

// ── lower case ──────────────────────────────────────────────────────────

/// ASCII upper-case letters to lower case; other characters unchanged.
pub open spec fn ascii_lower(c: char) -> char {
    if 'A' <= c && c <= 'Z' {
        (((c as int) + 32) as u8) as char
    } else {
        c
    }
}

pub open spec fn ascii_lower_seq(s: Seq<char>) -> Seq<char> {
    s.map_values(|c: char| ascii_lower(c))
}

fn lower_char(c: char) -> (r: char)
    ensures
        r == ascii_lower(c),
{
    if 'A' <= c && c <= 'Z' {
        ((c as u8) + 32u8) as char
    } else {
        c
    }
}

/// `v[from..]` in ASCII lower case.
pub(crate) fn lower_from(v: &Vec<char>, from: usize) -> (r: Vec<char>)
    requires
        from <= v@.len(),
    ensures
        r@ == ascii_lower_seq(v@.subrange(from as int, v@.len() as int)),
{
    let mut r: Vec<char> = Vec::new();
    let mut i = from;
    while i < v.len()
        invariant
            from <= i <= v@.len(),
            r@ == ascii_lower_seq(v@.subrange(from as int, i as int)),
        decreases v@.len() - i,
    {
        r.push(lower_char(v[i]));
        proof {
            assert(ascii_lower_seq(v@.subrange(from as int, i + 1)) =~= ascii_lower_seq(
                v@.subrange(from as int, i as int),
            ).push(ascii_lower(v@[i as int])));
        }
        i = i + 1;
    }
    r
}

/// Two character vectors are equal.
pub(crate) fn chars_eq(a: &Vec<char>, bv: &Vec<char>) -> (r: bool)
    ensures
        r == (a@ == bv@),
{
    if a.len() != bv.len() {
        return false;
    }
    let mut i: usize = 0;
    while i < a.len()
        invariant
            a@.len() == bv@.len(),
            i <= a@.len(),
            forall|k: int| 0 <= k < i ==> a@[k] == bv@[k],
        decreases a@.len() - i,
    {
        if a[i] != bv[i] {
            proof {
                assert(a@[i as int] != bv@[i as int]);
            }
            return false;
        }
        i = i + 1;
    }
    proof {
        assert(a@ =~= bv@);
    }
    true
}

/// `v` holds the same characters as the string slice `s`.
pub(crate) fn chars_are(v: &Vec<char>, s: &str) -> (r: bool)
    ensures
        r == (v@ == s@),
{
    let w = chars_of(s);
    chars_eq(v, &w)
}

} // verus!
