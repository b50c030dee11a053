//! Encryption of protected albums: a key derived from the password
//! (Argon2id), a keyed BLAKE3 verifier of that key, and a chunked
//! XChaCha20-Poly1305 container that allows random access to large videos.
//!
//! Container layout:
//!   "MNST1" (5 bytes) | base nonce (16 bytes) | plaintext length (8 bytes, LE) |
//!   chunks: ciphertext of 4 MiB of plaintext followed by a 16-byte tag, ...
//! The nonce of chunk `i` is the base nonce followed by `i` as 8 LE bytes.
//! At least one chunk is always written, so an empty file holds one empty chunk.

use vstd::prelude::*;
use vstd::string::StringSliceAdditionalSpecFns;

use chacha20poly1305::aead::Aead;
use chacha20poly1305::{KeyInit, XChaCha20Poly1305, XNonce};

verus! {

/// Plaintext bytes per chunk.
pub const CHUNK: usize = 4194304;

/// Bytes of the authentication tag that follows each chunk.
pub const TAG: usize = 16;

/// Bytes of the container header.
pub const HEADER: usize = 29;

/// A 256-bit album key.
pub type Key = [u8; 32];

// ── byte-level specifications ───────────────────────────────────────────

/// The magic bytes that open every container: "MNST1".
pub open spec fn magic() -> Seq<u8> {
    seq![77u8, 78u8, 83u8, 84u8, 49u8]
}

/// The eight little-endian bytes of `v`.
pub open spec fn le8(v: u64) -> Seq<u8> {
    Seq::new(8, |k: int| ((v >> ((8 * k) as u64)) & 0xffu64) as u8)
}

/// The value of eight little-endian bytes.
pub open spec fn le8_value(s: Seq<u8>) -> u64 {
    (s[0] as u64) | ((s[1] as u64) << 8u64) | ((s[2] as u64) << 16u64) | ((s[3] as u64) << 24u64)
        | ((s[4] as u64) << 32u64) | ((s[5] as u64) << 40u64) | ((s[6] as u64) << 48u64) | ((s[7] as u64)
        << 56u64)
}

/// Reading back eight little-endian bytes gives the value written.
pub proof fn lemma_le8_roundtrip(v: u64)
    ensures
        le8_value(le8(v)) == v,
{
    let s = le8(v);
    assert(v >> 0u64 == v) by (bit_vector);
    assert(s[0] == (v & 0xffu64) as u8);
    assert(s[1] == ((v >> 8u64) & 0xffu64) as u8);
    assert(s[2] == ((v >> 16u64) & 0xffu64) as u8);
    assert(s[3] == ((v >> 24u64) & 0xffu64) as u8);
    assert(s[4] == ((v >> 32u64) & 0xffu64) as u8);
    assert(s[5] == ((v >> 40u64) & 0xffu64) as u8);
    assert(s[6] == ((v >> 48u64) & 0xffu64) as u8);
    assert(s[7] == ((v >> 56u64) & 0xffu64) as u8);
    assert((((v & 0xffu64) as u8) as u64) | (((((v >> 8u64) & 0xffu64) as u8) as u64) << 8u64)
        | (((((v >> 16u64) & 0xffu64) as u8) as u64) << 16u64) | (((((v >> 24u64) & 0xffu64) as u8) as u64)
        << 24u64) | (((((v >> 32u64) & 0xffu64) as u8) as u64) << 32u64) | (((((v >> 40u64) & 0xffu64)
        as u8) as u64) << 40u64) | (((((v >> 48u64) & 0xffu64) as u8) as u64) << 48u64) | (((((v
        >> 56u64) & 0xffu64) as u8) as u64) << 56u64) == v) by (bit_vector);
}

/// The nonce of chunk `index`: the base nonce followed by the index.
pub open spec fn nonce_for(base: Seq<u8>, index: u64) -> Seq<u8> {
    base + le8(index)
}

/// The container header for a base nonce and a plaintext length.
pub open spec fn header_for(base: Seq<u8>, len: u64) -> Seq<u8> {
    magic() + base + le8(len)
}

// ── chunk geometry ──────────────────────────────────────────────────────

/// Number of chunks for a plaintext of `len` bytes (never zero).
pub open spec fn chunk_count(len: nat) -> nat {
    if len == 0 {
        1
    } else {
        ((len - 1) as nat / (CHUNK as nat) + 1) as nat
    }
}

/// Plaintext bytes in chunk `j`.
pub open spec fn plain_len(len: nat, j: nat) -> nat {
    if j * CHUNK >= len {
        0
    } else if len - j * CHUNK >= CHUNK {
        CHUNK as nat
    } else {
        (len - j * CHUNK) as nat
    }
}

/// Bytes of ciphertext taken by the first `k` chunks.
pub open spec fn body_len(len: nat, k: nat) -> nat
    decreases k,
{
    if k == 0 {
        0
    } else {
        body_len(len, (k - 1) as nat) + plain_len(len, (k - 1) as nat) + (TAG as nat)
    }
}

/// The plaintext of chunk `j`.
pub open spec fn chunk_plain(data: Seq<u8>, j: nat) -> Seq<u8> {
    data.subrange((j * CHUNK) as int, (j * CHUNK + plain_len(data.len(), j)) as int)
}

/// The ciphertext of chunk `j` in `c`, where the chunks start at `from`.
pub open spec fn ct_at(c: Seq<u8>, from: int, len: nat, j: nat) -> Seq<u8> {
    c.subrange(from + body_len(len, j), from + body_len(len, j + 1))
}

proof fn lemma_chunk_count_bounds(len: nat)
    ensures
        chunk_count(len) >= 1,
        (chunk_count(len) - 1) * CHUNK <= len,
        len <= chunk_count(len) * CHUNK,
        len > 0 ==> (chunk_count(len) - 1) * CHUNK < len,
{
    if len > 0 {
        let q = ((len - 1) as nat / (CHUNK as nat)) as nat;
        assert(q * CHUNK <= len - 1 < (q + 1) * CHUNK) by (nonlinear_arith)
            requires
                q == (len - 1) as nat / (CHUNK as nat),
                len >= 1,
        ;
    }
}

/// Every chunk but the last holds a full `CHUNK` of plaintext.
proof fn lemma_plain_len(len: nat, j: nat)
    requires
        j < chunk_count(len),
    ensures
        j + 1 < chunk_count(len) ==> plain_len(len, j) == CHUNK,
        j + 1 == chunk_count(len) ==> plain_len(len, j) == len - j * CHUNK,
        plain_len(len, j) <= CHUNK,
        j * CHUNK + plain_len(len, j) <= len,
{
    lemma_chunk_count_bounds(len);
    let n = chunk_count(len);
    if j + 1 < n {
        assert((j + 1) * CHUNK <= (n - 1) * CHUNK) by (nonlinear_arith)
            requires
                j + 1 <= n - 1,
        ;
    } else {
        assert(j == n - 1);
    }
}

/// Before the last chunk, chunks are laid out at a fixed stride.
proof fn lemma_body_len(len: nat, k: nat)
    requires
        k < chunk_count(len),
    ensures
        body_len(len, k) == k * (CHUNK + TAG),
    decreases k,
{
    if k > 0 {
        lemma_body_len(len, (k - 1) as nat);
        lemma_plain_len(len, (k - 1) as nat);
        assert(k * (CHUNK + TAG) == (k - 1) * (CHUNK + TAG) + CHUNK + TAG) by (nonlinear_arith);
    }
}

proof fn lemma_body_len_mono(len: nat, a: nat, b: nat)
    requires
        a <= b,
    ensures
        body_len(len, a) <= body_len(len, b),
        body_len(len, b) - body_len(len, a) >= (b - a) * TAG,
    decreases b,
{
    if a < b {
        lemma_body_len_mono(len, a, (b - 1) as nat);
        assert((b - a) * TAG == (b - 1 - a) * TAG + TAG) by (nonlinear_arith);
    }
}

/// The whole ciphertext body: the full chunks, then the last one.
proof fn lemma_body_len_total(len: nat)
    ensures
        body_len(len, chunk_count(len)) == len + chunk_count(len) * TAG,
{
    lemma_chunk_count_bounds(len);
    let n = chunk_count(len);
    lemma_body_len(len, (n - 1) as nat);
    lemma_plain_len(len, (n - 1) as nat);
    assert((n - 1) * (CHUNK + TAG) + TAG == (n - 1) * CHUNK + n * TAG) by (nonlinear_arith);
}

} // verus!

verus! {

// ── the AEAD cipher ─────────────────────────────────────────────────────

/// What XChaCha20-Poly1305 produces for a key, a 24-byte nonce and a
/// plaintext (ciphertext followed by the tag).
pub uninterp spec fn xchacha_seal(key: Seq<u8>, nonce: Seq<u8>, plaintext: Seq<u8>) -> Seq<u8>;

/// What XChaCha20-Poly1305 decryption gives for a key, a nonce and a
/// ciphertext: the plaintext, or nothing when the tag does not authenticate.
pub uninterp spec fn xchacha_open(key: Seq<u8>, nonce: Seq<u8>, ciphertext: Seq<u8>) -> Option<Seq<u8>>;

/// `Aead::encrypt` of `XChaCha20Poly1305` with no associated data. The crate
/// refuses a plaintext of `u32::MAX` 64-byte blocks or more and nothing else;
/// the ciphertext carries the 16-byte tag after the encrypted bytes.
#[verifier::external_body]
fn aead_encrypt(key: &Key, nonce: &[u8], plaintext: &[u8]) -> (r: Option<Vec<u8>>)
    requires
        nonce@.len() == 24,
    ensures
        r is Some <==> plaintext@.len() / 64 < 0xffff_ffff,
        r matches Some(ct) ==> ct@ == xchacha_seal(key@, nonce@, plaintext@) && ct@.len() == plaintext@.len() + 16,
{
    XChaCha20Poly1305::new(key.into()).encrypt(XNonce::from_slice(nonce), plaintext).ok()
}

/// `Aead::decrypt` of `XChaCha20Poly1305` with no associated data. The
/// plaintext is 16 bytes (the tag) shorter than the ciphertext, and what
/// `aead_encrypt` sealed under the same key and nonce opens to its plaintext.
/// That a changed ciphertext or a wrong key is refused holds only with
/// overwhelming probability, and is not stated.
#[verifier::external_body]
fn aead_decrypt(key: &Key, nonce: &[u8], ciphertext: &[u8]) -> (r: Option<Vec<u8>>)
    requires
        nonce@.len() == 24,
    ensures
        (match r {
            Some(p) => xchacha_open(key@, nonce@, ciphertext@) == Some(p@) && p@.len() + 16 == ciphertext@.len(),
            None => xchacha_open(key@, nonce@, ciphertext@) is None,
        }),
        forall|pt: Seq<u8>| #![trigger xchacha_seal(key@, nonce@, pt)]
            (pt.len() / 64 < 0xffff_ffff && ciphertext@ == xchacha_seal(key@, nonce@, pt)) ==> r is Some && r.unwrap()@ == pt,
{
    XChaCha20Poly1305::new(key.into()).decrypt(XNonce::from_slice(nonce), ciphertext).ok()
}

// ── building containers ─────────────────────────────────────────────────

/// Appends the bytes of `src`.
fn append_bytes(out: &mut Vec<u8>, src: &[u8])
    ensures
        final(out)@ == old(out)@ + src@,
{
    let ghost start = out@;
    let mut i: usize = 0;
    while i < src.len()
        invariant
            i <= src@.len(),
            out@ == start + src@.subrange(0, i as int),
        decreases src@.len() - i,
    {
        out.push(src[i]);
        proof {
            assert(src@.subrange(0, i + 1) =~= src@.subrange(0, i as int).push(src@[i as int]));
        }
        i = i + 1;
    }
    proof {
        assert(src@.subrange(0, src@.len() as int) =~= src@);
    }
}

/// Appends `v` as eight little-endian bytes.
fn push_le8(out: &mut Vec<u8>, v: u64)
    ensures
        final(out)@ == old(out)@ + le8(v),
{
    let ghost start = out@;
    let mut k: u64 = 0;
    while k < 8
        invariant
            k <= 8,
            out@ == start + le8(v).subrange(0, k as int),
        decreases 8 - k,
    {
        out.push(((v >> (8 * k)) & 0xff) as u8);
        proof {
            assert(le8(v).subrange(0, k + 1) =~= le8(v).subrange(0, k as int).push(le8(v)[k as int]));
        }
        k = k + 1;
    }
    proof {
        assert(le8(v).subrange(0, 8) =~= le8(v));
    }
}

/// The 24-byte nonce of chunk `index`.
fn chunk_nonce(base: &[u8], index: u64) -> (n: Vec<u8>)
    requires
        base@.len() == 16,
    ensures
        n@ == nonce_for(base@, index),
        n@.len() == 24,
{
    let mut n: Vec<u8> = Vec::new();
    append_bytes(&mut n, base);
    push_le8(&mut n, index);
    proof {
        assert(n@ =~= nonce_for(base@, index));
    }
    n
}

/// The container header for a base nonce and a plaintext length.
pub fn header_bytes(base: &[u8], len: u64) -> (h: Vec<u8>)
    requires
        base@.len() == 16,
    ensures
        h@ == header_for(base@, len),
        h@.len() == HEADER,
{
    let mut h: Vec<u8> = Vec::new();
    h.push(77u8);
    h.push(78u8);
    h.push(83u8);
    h.push(84u8);
    h.push(49u8);
    proof {
        assert(h@ =~= magic());
    }
    append_bytes(&mut h, base);
    push_le8(&mut h, len);
    proof {
        assert(h@ =~= header_for(base@, len));
    }
    h
}

/// The sealed form of chunk `j` of `data`.
pub open spec fn sealed_chunk(key: Seq<u8>, base: Seq<u8>, data: Seq<u8>, j: nat) -> Seq<u8> {
    xchacha_seal(key, nonce_for(base, j as u64), chunk_plain(data, j))
}

/// `c` is the container of `data` under `key` and the base nonce `base`.
pub open spec fn sealed_as(key: Seq<u8>, base: Seq<u8>, data: Seq<u8>, c: Seq<u8>) -> bool {
    &&& c.len() == HEADER + body_len(data.len(), chunk_count(data.len()))
    &&& c.subrange(0, HEADER as int) == header_for(base, data.len() as u64)
    &&& forall|j: nat|
        j < chunk_count(data.len()) ==> #[trigger] ct_at(c, HEADER as int, data.len(), j) == sealed_chunk(
            key,
            base,
            data,
            j,
        )
}

/// Encrypts one chunk of at most `CHUNK` bytes as chunk `index`.
pub fn seal_chunk(key: &Key, base: &[u8], index: u64, chunk: &[u8]) -> (ct: Vec<u8>)
    requires
        base@.len() == 16,
        chunk@.len() <= CHUNK,
    ensures
        ct@ == xchacha_seal(key@, nonce_for(base@, index), chunk@),
        ct@.len() == chunk@.len() + TAG,
{
    let nonce = chunk_nonce(base, index);
    match aead_encrypt(key, nonce.as_slice(), chunk) {
        Some(ct) => ct,
        None => {
            proof {
                assert(chunk@.len() / 64 < 0xffff_ffff);
            }
            Vec::new()
        },
    }
}

/// The whole container of `data`: the header, then every chunk sealed.
pub fn seal(key: &Key, base: &[u8], data: &[u8]) -> (c: Vec<u8>)
    requires
        base@.len() == 16,
    ensures
        sealed_as(key@, base@, data@, c@),
{
    let n = data.len();
    let ghost len = n as nat;
    let count: usize = if n == 0 { 1 } else { (n - 1) / CHUNK + 1 };
    proof {
        assert(count == chunk_count(len));
        lemma_chunk_count_bounds(len);
    }
    let mut c = header_bytes(base, n as u64);
    let mut j: usize = 0;
    while j < count
        invariant
            n == data@.len(),
            len == n,
            base@.len() == 16,
            count == chunk_count(len),
            j <= count,
            c@.len() == HEADER + body_len(len, j as nat),
            c@.subrange(0, HEADER as int) == header_for(base@, n as u64),
            forall|i: nat| i < j ==> #[trigger] ct_at(c@, HEADER as int, len, i) == sealed_chunk(key@, base@, data@, i),
        decreases count - j,
    {
        proof {
            lemma_plain_len(len, j as nat);
        }
        let lo = j * CHUNK;
        let hi = if n - lo >= CHUNK { lo + CHUNK } else { n };
        proof {
            assert(hi - lo == plain_len(len, j as nat));
        }
        let ct = seal_chunk(key, base, j as u64, &data[lo..hi]);
        let ghost old_c = c@;
        append_bytes(&mut c, ct.as_slice());
        proof {
            assert(data@.subrange(lo as int, hi as int) == chunk_plain(data@, j as nat));
            assert(c@.subrange(0, HEADER as int) =~= old_c.subrange(0, HEADER as int));
            assert forall|i: nat| i < j + 1 implies #[trigger] ct_at(c@, HEADER as int, len, i) == sealed_chunk(key@, base@, data@, i) by {
                if i < j {
                    lemma_body_len_mono(len, i + 1, j as nat);
                    assert(ct_at(c@, HEADER as int, len, i) =~= ct_at(old_c, HEADER as int, len, i));
                } else {
                    assert(ct_at(c@, HEADER as int, len, i) =~= ct@);
                }
            }
        }
        j = j + 1;
    }
    c
}

/// Seals a plaintext of known length chunk by chunk, in order, so that a
/// large file is encrypted without being held in memory: the header first,
/// then each chunk as the container lays it out.
pub struct ChunkSealer {
    key: Key,
    base: Vec<u8>,
    len: u64,
    next: u64,
}

impl ChunkSealer {
    pub closed spec fn key_view(&self) -> Seq<u8> {
        self.key@
    }

    pub closed spec fn base_view(&self) -> Seq<u8> {
        self.base@
    }

    /// The length of the plaintext being sealed.
    pub closed spec fn plain_size(&self) -> u64 {
        self.len
    }

    /// The index of the next chunk to seal.
    pub closed spec fn next_index(&self) -> u64 {
        self.next
    }

    pub closed spec fn wf(&self) -> bool {
        &&& self.base@.len() == 16
        &&& self.next <= chunk_count(self.len as nat)
    }

    /// Starts sealing `len` bytes under `key` and the base nonce `base`,
    /// and gives the container header.
    pub fn start(key: &Key, base: &[u8], len: u64) -> (r: (ChunkSealer, Vec<u8>))
        requires
            base@.len() == 16,
        ensures
            r.0.wf(),
            r.0.key_view() == key@,
            r.0.base_view() == base@,
            r.0.plain_size() == len,
            r.0.next_index() == 0,
            r.1@ == header_for(base@, len),
    {
        let mut b: Vec<u8> = Vec::new();
        append_bytes(&mut b, base);
        proof {
            assert(b@ =~= base@);
            lemma_chunk_count_bounds(len as nat);
        }
        (ChunkSealer { key: *key, base: b, len, next: 0 }, header_bytes(base, len))
    }

    /// The plaintext bytes the next chunk takes; nothing once every chunk
    /// is sealed.
    pub fn next_len(&self) -> (n: Option<usize>)
        requires
            self.wf(),
        ensures
            self.next_index() < chunk_count(self.plain_size() as nat) ==> n == Some(
                plain_len(self.plain_size() as nat, self.next_index() as nat) as usize,
            ),
            self.next_index() >= chunk_count(self.plain_size() as nat) ==> n is None,
    {
        let count: u64 = if self.len == 0 { 1 } else { (self.len - 1) / (CHUNK as u64) + 1 };
        if self.next >= count {
            return None;
        }
        let ghost len = self.len as nat;
        let ghost j = self.next as nat;
        proof {
            lemma_chunk_count_bounds(len);
            lemma_plain_len(len, j);
            assert(j * CHUNK <= (chunk_count(len) - 1) * CHUNK) by (nonlinear_arith)
                requires
                    j <= chunk_count(len) - 1,
            ;
        }
        let lo: u64 = self.next * (CHUNK as u64);
        let rest: u64 = self.len - lo;
        let n: usize = if rest >= CHUNK as u64 { CHUNK } else { rest as usize };
        Some(n)
    }

    /// Seals the next chunk, which holds exactly the plaintext bytes that
    /// `next_len` asked for.
    pub fn seal_next(&mut self, chunk: &[u8]) -> (ct: Vec<u8>)
        requires
            old(self).wf(),
            old(self).next_index() < chunk_count(old(self).plain_size() as nat),
            chunk@.len() == plain_len(old(self).plain_size() as nat, old(self).next_index() as nat),
        ensures
            final(self).wf(),
            final(self).key_view() == old(self).key_view(),
            final(self).base_view() == old(self).base_view(),
            final(self).plain_size() == old(self).plain_size(),
            final(self).next_index() == old(self).next_index() + 1,
            ct@ == xchacha_seal(old(self).key_view(), nonce_for(old(self).base_view(), old(self).next_index()), chunk@),
            ct@.len() == chunk@.len() + TAG,
    {
        proof {
            lemma_plain_len(self.len as nat, self.next as nat);
            lemma_chunk_count_bounds(self.len as nat);
        }
        let ct = seal_chunk(&self.key, self.base.as_slice(), self.next, chunk);
        self.next = self.next + 1;
        ct
    }
}

} // verus!

verus! {

// ── reading containers ──────────────────────────────────────────────────

/// Why a container could not be read.
#[derive(Clone, Copy, Debug, PartialEq, Eq, Structural)]
pub enum CryptoError {
    /// The header does not start with the magic bytes.
    NotMediaNest,
    /// Fewer bytes were given than the container holds there.
    Truncated,
    /// The chunk asked for lies beyond the end of the file.
    OutOfFile,
    /// A chunk did not authenticate: wrong password or damaged file.
    DecryptFailed,
    /// The operating system gave no random bytes.
    NoRandomness,
}

impl CryptoError {
    /// The message shown to the user.
    pub fn message(&self) -> (m: String)
        ensures
            m@ == match *self {
                CryptoError::NotMediaNest => "to nie jest plik MediaNest"@,
                CryptoError::Truncated => "plik jest niekompletny"@,
                CryptoError::OutOfFile => "blok poza plikiem"@,
                CryptoError::DecryptFailed => "odszyfrowanie nie powiodło się (złe hasło lub uszkodzony plik)"@,
                CryptoError::NoRandomness => "brak losowości systemu"@,
            },
    {
        match self {
            CryptoError::NotMediaNest => String::from_str("to nie jest plik MediaNest"),
            CryptoError::Truncated => String::from_str("plik jest niekompletny"),
            CryptoError::OutOfFile => String::from_str("blok poza plikiem"),
            CryptoError::DecryptFailed => String::from_str(
                "odszyfrowanie nie powiodło się (złe hasło lub uszkodzony plik)",
            ),
            CryptoError::NoRandomness => String::from_str("brak losowości systemu"),
        }
    }
}

/// An opened container: the key, the base nonce and the plaintext length
/// read from its header. The chunks themselves are handed to its methods.
pub struct EncryptedFile {
    key: Key,
    base: Vec<u8>,
    pub plaintext_len: u64,
}

/// The ciphertext of chunk `j` inside a span that starts at chunk `first`.
pub open spec fn span_ct(span: Seq<u8>, len: nat, first: nat, j: nat) -> Seq<u8> {
    ct_at(span, -(body_len(len, first) as int), len, j)
}

/// Decrypts `k` consecutive chunks from chunk `first` out of `span` and
/// joins their plaintexts; nothing if one of them does not authenticate.
pub open spec fn open_run(key: Seq<u8>, base: Seq<u8>, len: nat, span: Seq<u8>, first: nat, k: nat) -> Option<Seq<u8>>
    decreases k,
{
    if k == 0 {
        Some(Seq::empty())
    } else {
        match open_run(key, base, len, span, first, (k - 1) as nat) {
            Some(a) => match xchacha_open(
                key,
                nonce_for(base, (first + k - 1) as u64),
                span_ct(span, len, first, (first + k - 1) as nat),
            ) {
                Some(b) => Some(a + b),
                None => None,
            },
            None => None,
        }
    }
}

/// The plaintexts of `k` consecutive chunks of `data` from chunk `first`, joined.
pub open spec fn plain_run(data: Seq<u8>, first: nat, k: nat) -> Seq<u8>
    decreases k,
{
    if k == 0 {
        Seq::empty()
    } else {
        plain_run(data, first, (k - 1) as nat) + chunk_plain(data, (first + k - 1) as nat)
    }
}

/// Chunks `first..upto` of `span` are the sealed chunks of `data`.
pub open spec fn span_holds(key: Seq<u8>, base: Seq<u8>, data: Seq<u8>, span: Seq<u8>, first: nat, upto: nat) -> bool {
    forall|j: nat| first <= j < upto ==> #[trigger] span_ct(span, data.len(), first, j) == sealed_chunk(key, base, data, j)
}

/// The first and last chunk touched by the bytes `s..e` (with `s < e`).
pub open spec fn first_chunk(s: nat) -> nat {
    s / (CHUNK as nat)
}

pub open spec fn last_chunk(e: nat) -> nat {
    ((e - 1) as nat) / (CHUNK as nat)
}

/// Bytes of ciphertext that chunks `first..=last` take.
pub open spec fn span_len(len: nat, first: nat, last: nat) -> nat {
    (body_len(len, last + 1) - body_len(len, first)) as nat
}

proof fn lemma_open_run_none(key: Seq<u8>, base: Seq<u8>, len: nat, span: Seq<u8>, first: nat, a: nat, b: nat)
    requires
        a <= b,
        open_run(key, base, len, span, first, a) is None,
    ensures
        open_run(key, base, len, span, first, b) is None,
    decreases b,
{
    if a < b {
        lemma_open_run_none(key, base, len, span, first, a, (b - 1) as nat);
    }
}

/// Consecutive chunk plaintexts join into one stretch of the data.
proof fn lemma_plain_run(data: Seq<u8>, first: nat, k: nat)
    requires
        first + k <= chunk_count(data.len()),
    ensures
        k > 0 ==> plain_run(data, first, k) == data.subrange(
            (first * CHUNK) as int,
            ((first + k - 1) * CHUNK + plain_len(data.len(), (first + k - 1) as nat)) as int,
        ),
        k == 0 ==> plain_run(data, first, k) == Seq::<u8>::empty(),
    decreases k,
{
    if k > 0 {
        let j = (first + k - 1) as nat;
        lemma_plain_len(data.len(), j);
        if k > 1 {
            lemma_plain_run(data, first, (k - 1) as nat);
            lemma_plain_len(data.len(), (j - 1) as nat);
            assert((j - 1) * CHUNK + CHUNK == j * CHUNK) by (nonlinear_arith);
            assert(plain_run(data, first, k) =~= data.subrange(
                (first * CHUNK) as int,
                (j * CHUNK + plain_len(data.len(), j)) as int,
            ));
        } else {
            assert(plain_run(data, first, 0) == Seq::<u8>::empty());
            assert(plain_run(data, first, k) =~= Seq::<u8>::empty() + chunk_plain(data, j));
            assert(Seq::<u8>::empty() + chunk_plain(data, j) =~= chunk_plain(data, j));
        }
    }
}

impl EncryptedFile {
    /// The key the container is read with.
    pub closed spec fn key_view(&self) -> Seq<u8> {
        self.key@
    }

    /// The base nonce read from the header.
    pub closed spec fn base_view(&self) -> Seq<u8> {
        self.base@
    }

    /// The plaintext length read from the header.
    pub closed spec fn plain_size(&self) -> u64 {
        self.plaintext_len
    }

    pub closed spec fn wf(&self) -> bool {
        self.base@.len() == 16
    }

    /// Reads the header (the first `HEADER` bytes of the container; more
    /// may be given) and keeps the key for the chunks.
    pub fn open(key: &Key, header: &[u8]) -> (r: Result<EncryptedFile, CryptoError>)
        ensures
            header@.len() < HEADER ==> r == Err::<EncryptedFile, CryptoError>(CryptoError::Truncated),
            header@.len() >= HEADER && header@.subrange(0, 5) != magic() ==> r == Err::<EncryptedFile, CryptoError>(
                CryptoError::NotMediaNest,
            ),
            header@.len() >= HEADER && header@.subrange(0, 5) == magic() ==> (r matches Ok(f) && f.wf()
                && f.key_view() == key@ && f.base_view() == header@.subrange(5, 21) && f.plain_size()
                == le8_value(header@.subrange(21, 29))),
            forall|base: Seq<u8>, len: u64|
                base.len() == 16 && header@.len() >= HEADER && #[trigger] header_for(base, len) == header@.subrange(
                    0,
                    HEADER as int,
                ) ==> (r matches Ok(f) && f.wf() && f.key_view() == key@ && f.base_view() == base
                    && f.plain_size() == len),
    {
        if header.len() < HEADER {
            return Err(CryptoError::Truncated);
        }
        if !(header[0] == 77u8 && header[1] == 78u8 && header[2] == 83u8 && header[3] == 84u8 && header[4] == 49u8) {
            proof {
                assert forall|base: Seq<u8>, len: u64|
                    base.len() == 16 && #[trigger] header_for(base, len) == header@.subrange(0, HEADER as int)
                    implies false by {
                    assert(header_for(base, len)[0] == 77u8);
                    assert(header_for(base, len)[1] == 78u8);
                    assert(header_for(base, len)[2] == 83u8);
                    assert(header_for(base, len)[3] == 84u8);
                    assert(header_for(base, len)[4] == 49u8);
                    assert(header@[0] == header@.subrange(0, HEADER as int)[0]);
                    assert(header@[1] == header@.subrange(0, HEADER as int)[1]);
                    assert(header@[2] == header@.subrange(0, HEADER as int)[2]);
                    assert(header@[3] == header@.subrange(0, HEADER as int)[3]);
                    assert(header@[4] == header@.subrange(0, HEADER as int)[4]);
                }
                if header@.subrange(0, 5) == magic() {
                    assert(header@[0] == header@.subrange(0, 5)[0]);
                    assert(header@[1] == header@.subrange(0, 5)[1]);
                    assert(header@[2] == header@.subrange(0, 5)[2]);
                    assert(header@[3] == header@.subrange(0, 5)[3]);
                    assert(header@[4] == header@.subrange(0, 5)[4]);
                }
            }
            return Err(CryptoError::NotMediaNest);
        }
        let mut base: Vec<u8> = Vec::new();
        append_bytes(&mut base, &header[5..21]);
        let plaintext_len: u64 = (header[21] as u64) | ((header[22] as u64) << 8u64) | ((header[23] as u64) << 16u64)
            | ((header[24] as u64) << 24u64) | ((header[25] as u64) << 32u64) | ((header[26] as u64) << 40u64)
            | ((header[27] as u64) << 48u64) | ((header[28] as u64) << 56u64);
        let f = EncryptedFile { key: *key, base, plaintext_len };
        proof {
            let lenb = header@.subrange(21, 29);
            assert(lenb[0] == header@[21] && lenb[1] == header@[22] && lenb[2] == header@[23] && lenb[3] == header@[24]);
            assert(lenb[4] == header@[25] && lenb[5] == header@[26] && lenb[6] == header@[27] && lenb[7] == header@[28]);
            assert(plaintext_len == le8_value(lenb));
            assert(header@.subrange(0, 5) =~= magic());
            assert forall|b: Seq<u8>, l: u64|
                b.len() == 16 && #[trigger] header_for(b, l) == header@.subrange(0, HEADER as int)
                implies f.base_view() == b && f.plain_size() == l by {
                assert(header_for(b, l).subrange(5, 21) =~= b);
                assert(header@.subrange(0, HEADER as int).subrange(5, 21) =~= header@.subrange(5, 21));
                assert(header_for(b, l).subrange(21, 29) =~= le8(l));
                assert(header@.subrange(0, HEADER as int).subrange(21, 29) =~= lenb);
                lemma_le8_roundtrip(l);
            }
        }
        Ok(f)
    }

    /// Number of chunks in the container.
    pub fn chunk_count(&self) -> (n: u64)
        ensures
            n == chunk_count(self.plain_size() as nat),
    {
        if self.plaintext_len == 0 {
            1
        } else {
            (self.plaintext_len - 1) / (CHUNK as u64) + 1
        }
    }

    /// Where chunk `index` lies in the container: its offset and its length.
    pub fn chunk_span(&self, index: u64) -> (r: Result<(u64, usize), CryptoError>)
        ensures
            index >= chunk_count(self.plain_size() as nat) ==> r == Err::<(u64, usize), CryptoError>(
                CryptoError::OutOfFile,
            ),
            index < chunk_count(self.plain_size() as nat) && HEADER + body_len(self.plain_size() as nat, index as nat)
                > u64::MAX ==> r == Err::<(u64, usize), CryptoError>(CryptoError::OutOfFile),
            index < chunk_count(self.plain_size() as nat) && HEADER + body_len(self.plain_size() as nat, index as nat)
                <= u64::MAX ==> r == Ok::<(u64, usize), CryptoError>(
                (
                    (HEADER + body_len(self.plain_size() as nat, index as nat)) as u64,
                    (plain_len(self.plain_size() as nat, index as nat) + TAG) as usize,
                ),
            ),
    {
        let ghost len = self.plain_size() as nat;
        let count = self.chunk_count();
        if index >= count {
            return Err(CryptoError::OutOfFile);
        }
        proof {
            lemma_body_len(len, index as nat);
            lemma_plain_len(len, index as nat);
        }
        let off: u128 = HEADER as u128 + (index as u128) * ((CHUNK + TAG) as u128);
        if off > u64::MAX as u128 {
            return Err(CryptoError::OutOfFile);
        }
        let lo = index * (CHUNK as u64);
        let pl: u64 = if self.plaintext_len - lo >= CHUNK as u64 { CHUNK as u64 } else { self.plaintext_len - lo };
        Ok((off as u64, pl as usize + TAG))
    }

    /// Decrypts chunk `index` from its ciphertext `ct`.
    pub fn read_chunk(&self, index: u64, ct: &[u8]) -> (r: Result<Vec<u8>, CryptoError>)
        requires
            self.wf(),
        ensures
            index >= chunk_count(self.plain_size() as nat) ==> r == Err::<Vec<u8>, CryptoError>(
                CryptoError::OutOfFile,
            ),
            index < chunk_count(self.plain_size() as nat) && ct@.len() != plain_len(self.plain_size() as nat, index as nat)
                + TAG ==> r == Err::<Vec<u8>, CryptoError>(CryptoError::Truncated),
            index < chunk_count(self.plain_size() as nat) && ct@.len() == plain_len(self.plain_size() as nat, index as nat)
                + TAG ==> match xchacha_open(self.key_view(), nonce_for(self.base_view(), index), ct@) {
                Some(p) => r matches Ok(v) && v@ == p && v@.len() == plain_len(self.plain_size() as nat, index as nat),
                None => r == Err::<Vec<u8>, CryptoError>(CryptoError::DecryptFailed),
            },
            forall|data: Seq<u8>|
                data.len() == self.plain_size() && index < chunk_count(data.len()) && ct@.len() == plain_len(
                    data.len(),
                    index as nat,
                ) + TAG && ct@ == #[trigger] sealed_chunk(self.key_view(), self.base_view(), data, index as nat)
                    ==> (r matches Ok(v) && v@ == chunk_plain(data, index as nat)),
    {
        let ghost len = self.plain_size() as nat;
        let count = self.chunk_count();
        if index >= count {
            return Err(CryptoError::OutOfFile);
        }
        proof {
            lemma_plain_len(len, index as nat);
        }
        let lo = index * (CHUNK as u64);
        let pl: u64 = if self.plaintext_len - lo >= CHUNK as u64 { CHUNK as u64 } else { self.plaintext_len - lo };
        if ct.len() as u64 != pl + (TAG as u64) {
            return Err(CryptoError::Truncated);
        }
        let nonce = chunk_nonce(self.base.as_slice(), index);
        proof {
            assert forall|data: Seq<u8>|
                data.len() == self.plain_size() && index < chunk_count(data.len()) && #[trigger] sealed_chunk(
                    self.key_view(),
                    self.base_view(),
                    data,
                    index as nat,
                ) == ct@ implies chunk_plain(data, index as nat).len() / 64 < 0xffff_ffff by {
                lemma_plain_len(data.len(), index as nat);
            }
            assert((index as nat) as u64 == index);
        }
        match aead_decrypt(&self.key, nonce.as_slice(), ct) {
            Some(p) => Ok(p),
            None => Err(CryptoError::DecryptFailed),
        }
    }
}


/// Where the bytes `s..e` lie among the chunks.
proof fn lemma_range_geometry(len: nat, s: nat, e: nat)
    requires
        s < e <= len,
    ensures
        first_chunk(s) <= last_chunk(e) < chunk_count(len),
        first_chunk(s) * CHUNK <= s,
        e <= last_chunk(e) * CHUNK + plain_len(len, last_chunk(e)),
        forall|i: nat| i <= last_chunk(e) ==> #[trigger] body_len(len, i) == i * (CHUNK + TAG),
        span_len(len, first_chunk(s), last_chunk(e)) == (last_chunk(e) - first_chunk(s)) * (CHUNK + TAG)
            + plain_len(len, last_chunk(e)) + TAG,
{
    let first = first_chunk(s);
    let last = last_chunk(e);
    lemma_chunk_count_bounds(len);
    assert(last < chunk_count(len)) by (nonlinear_arith)
        requires
            last == (e - 1) as nat / (CHUNK as nat),
            e <= len,
            1 <= e,
            chunk_count(len) == ((len - 1) as nat / (CHUNK as nat) + 1) as nat,
    ;
    assert(first <= last) by (nonlinear_arith)
        requires
            first == s / (CHUNK as nat),
            last == (e - 1) as nat / (CHUNK as nat),
            s <= e - 1,
    ;
    assert(first * CHUNK <= s) by (nonlinear_arith)
        requires
            first == s / (CHUNK as nat),
    ;
    assert(last * CHUNK <= e - 1 < (last + 1) * CHUNK) by (nonlinear_arith)
        requires
            last == (e - 1) as nat / (CHUNK as nat),
            e >= 1,
    ;
    lemma_plain_len(len, last);
    assert(e <= last * CHUNK + plain_len(len, last));
    assert forall|i: nat| i <= last implies #[trigger] body_len(len, i) == i * (CHUNK + TAG) by {
        lemma_body_len(len, i);
    }
    assert((last - first) * (CHUNK + TAG) == last * (CHUNK + TAG) - first * (CHUNK + TAG)) by (nonlinear_arith)
        requires
            first <= last,
    ;
    assert(body_len(len, last + 1) == body_len(len, last) + plain_len(len, last) + TAG);
    assert(body_len(len, last) == last * (CHUNK + TAG));
    assert(body_len(len, first) == first * (CHUNK + TAG));
}

/// One more authenticated chunk extends the decrypted run.
proof fn lemma_run_step(
    key: Seq<u8>,
    base: Seq<u8>,
    len: nat,
    span: Seq<u8>,
    first: nat,
    j: nat,
    acc: Seq<u8>,
    p: Seq<u8>,
)
    requires
        first <= j,
        open_run(key, base, len, span, first, (j - first) as nat) == Some(acc),
        xchacha_open(key, nonce_for(base, j as u64), span_ct(span, len, first, j)) == Some(p),
    ensures
        open_run(key, base, len, span, first, (j - first + 1) as nat) == Some(acc + p),
{
    assert((first + (j - first + 1) - 1) as nat == j);
}

/// A chunk that does not authenticate ends the decrypted run.
proof fn lemma_run_fail(key: Seq<u8>, base: Seq<u8>, len: nat, span: Seq<u8>, first: nat, j: nat, last: nat)
    requires
        first <= j <= last,
        xchacha_open(key, nonce_for(base, j as u64), span_ct(span, len, first, j)) is None,
    ensures
        open_run(key, base, len, span, first, (last - first + 1) as nat) is None,
{
    assert((first + (j - first + 1) - 1) as nat == j);
    assert(open_run(key, base, len, span, first, (j - first + 1) as nat) is None);
    lemma_open_run_none(key, base, len, span, first, (j - first + 1) as nat, (last - first + 1) as nat);
}

/// When the span holds the sealed chunks of `data`, the decrypted run is
/// the run of `data`'s chunks.
proof fn lemma_plain_step(
    key: Seq<u8>,
    base: Seq<u8>,
    len: nat,
    span: Seq<u8>,
    first: nat,
    j: nat,
    acc: Seq<u8>,
    p: Seq<u8>,
)
    requires
        first <= j,
        forall|data: Seq<u8>|
            data.len() == len && #[trigger] span_holds(key, base, data, span, first, j) ==> acc == plain_run(
                data,
                first,
                (j - first) as nat,
            ),
        forall|data: Seq<u8>|
            data.len() == len && span_ct(span, len, first, j) == #[trigger] sealed_chunk(key, base, data, j) ==> p
                == chunk_plain(data, j),
    ensures
        forall|data: Seq<u8>|
            data.len() == len && #[trigger] span_holds(key, base, data, span, first, j + 1) ==> acc + p == plain_run(
                data,
                first,
                (j - first + 1) as nat,
            ),
{
    assert forall|data: Seq<u8>|
        data.len() == len && #[trigger] span_holds(key, base, data, span, first, j + 1) implies acc + p == plain_run(
            data,
            first,
            (j - first + 1) as nat,
        ) by {
        assert(span_holds(key, base, data, span, first, j));
        assert(span_ct(span, data.len(), first, j) == sealed_chunk(key, base, data, j));
        assert((first + (j - first + 1) - 1) as nat == j);
    }
}

impl EncryptedFile {
    /// Decrypts the plaintext bytes `s..e` from `span`, the ciphertext of the
    /// chunks that hold them (from the chunk of byte `s` to that of byte `e - 1`).
    #[verifier::rlimit(30)]
    fn read_between(&self, s: u64, e: u64, span: &[u8]) -> (r: Result<Vec<u8>, CryptoError>)
        requires
            self.wf(),
            s < e <= self.plain_size(),
        ensures
            ({
                let len = self.plain_size() as nat;
                let first = first_chunk(s as nat);
                let last = last_chunk(e as nat);
                &&& span@.len() != span_len(len, first, last) ==> r == Err::<Vec<u8>, CryptoError>(
                    CryptoError::Truncated,
                )
                &&& span@.len() == span_len(len, first, last) ==> match open_run(
                    self.key_view(),
                    self.base_view(),
                    len,
                    span@,
                    first,
                    (last - first + 1) as nat,
                ) {
                    Some(p) => r matches Ok(v) && v@ == p.subrange(s - first * CHUNK, e - first * CHUNK),
                    None => r == Err::<Vec<u8>, CryptoError>(CryptoError::DecryptFailed),
                }
            }),
            forall|data: Seq<u8>|
                data.len() == self.plain_size() && span@.len() == span_len(
                    data.len(),
                    first_chunk(s as nat),
                    last_chunk(e as nat),
                ) && #[trigger] span_holds(
                    self.key_view(),
                    self.base_view(),
                    data,
                    span@,
                    first_chunk(s as nat),
                    last_chunk(e as nat) + 1,
                ) ==> (r matches Ok(v) && v@ == data.subrange(s as int, e as int)),
    {
        let ghost len = self.plain_size() as nat;
        let ghost key = self.key_view();
        let ghost base = self.base_view();
        let first: u64 = s / (CHUNK as u64);
        let last: u64 = (e - 1) / (CHUNK as u64);
        let ghost gf = first as nat;
        let ghost gl = last as nat;
        proof {
            assert(gf == first_chunk(s as nat));
            assert(gl == last_chunk(e as nat));
            lemma_range_geometry(len, s as nat, e as nat);
            lemma_plain_len(len, gl);
        }
        // expected ciphertext bytes: full chunks up to `last`, then `last` itself
        let lo_last: u64 = last * (CHUNK as u64);
        let pl_last: u64 = if self.plaintext_len - lo_last >= CHUNK as u64 { CHUNK as u64 } else { self.plaintext_len - lo_last };
        let want: u128 = ((last - first) as u128) * ((CHUNK + TAG) as u128) + pl_last as u128 + TAG as u128;
        if span.len() as u128 != want {
            return Err(CryptoError::Truncated);
        }
        let mut acc: Vec<u8> = Vec::new();
        let mut j: u64 = first;
        while j <= last
            invariant
                self.wf(),
                len == self.plain_size(),
                key == self.key_view(),
                base == self.base_view(),
                gf == first,
                gl == last,
                gf == first_chunk(s as nat),
                gl == last_chunk(e as nat),
                first <= last,
                last < chunk_count(len),
                first <= j <= last + 1,
                span@.len() == span_len(len, gf, gl),
                span_len(len, gf, gl) == (gl - gf) * (CHUNK + TAG) + plain_len(len, gl) + TAG,
                forall|i: nat| i <= gl ==> #[trigger] body_len(len, i) == i * (CHUNK + TAG),
                open_run(key, base, len, span@, gf, (j - first) as nat) == Some(acc@),
                j <= last ==> acc@.len() == (j - first) * CHUNK,
                j == last + 1 ==> acc@.len() == (last - first) * CHUNK + plain_len(len, gl),
                forall|data: Seq<u8>|
                    data.len() == len && #[trigger] span_holds(key, base, data, span@, gf, j as nat)
                        ==> acc@ == plain_run(data, gf, (j - first) as nat),
            decreases last + 1 - j,
        {
            proof {
                lemma_plain_len(len, j as nat);
                if j < last {
                    assert(j + 1 < chunk_count(len));
                }
            }
            let lo = j * (CHUNK as u64);
            let pl: u64 = if self.plaintext_len - lo >= CHUNK as u64 { CHUNK as u64 } else { self.plaintext_len - lo };
            let d: u64 = j - first;
            proof {
                assert(body_len(len, j as nat) == j * (CHUNK + TAG));
                assert(body_len(len, gf) == gf * (CHUNK + TAG));
                assert(d * (CHUNK + TAG) == j * (CHUNK + TAG) - first * (CHUNK + TAG)) by (nonlinear_arith)
                    requires
                        first <= j,
                        d == j - first,
                ;
                assert(pl == plain_len(len, j as nat));
                assert(d * (CHUNK + TAG) + pl + TAG <= span@.len()) by (nonlinear_arith)
                    requires
                        d == j - first,
                        span@.len() == (last - first) * (CHUNK + TAG) + plain_len(len, last as nat) + TAG,
                        j <= last,
                        pl <= CHUNK,
                        j < last ==> pl == CHUNK,
                        j == last ==> pl == plain_len(len, last as nat),
                ;
                assert(d <= span@.len()) by (nonlinear_arith)
                    requires
                        d * (CHUNK + TAG) <= span@.len(),
                ;
            }
            let sl: usize = span.len();
            let du: usize = d as usize;
            proof {
                assert(du == d);
            }
            let rel: usize = du * (CHUNK + TAG);
            let clen: usize = pl as usize + TAG;
            let ct = &span[rel..rel + clen];
            proof {
                assert(body_len(len, (j + 1) as nat) == body_len(len, j as nat) + plain_len(len, j as nat) + TAG);
                assert(ct@ =~= span_ct(span@, len, gf, j as nat));
            }
            let res = self.read_chunk(j, ct);
            match res {
                Ok(mut p) => {
                    let ghost old_acc = acc@;
                    let ghost pv = p@;
                    acc.append(&mut p);
                    proof {
                        lemma_run_step(key, base, len, span@, gf, j as nat, old_acc, pv);
                        lemma_plain_step(key, base, len, span@, gf, j as nat, old_acc, pv);
                    }
                },
                Err(err) => {
                    proof {
                        assert(j < chunk_count(len));
                        assert(ct@.len() == plain_len(len, j as nat) + TAG);
                        assert(xchacha_open(key, nonce_for(base, j), ct@) is None);
                        assert(err == CryptoError::DecryptFailed);
                        lemma_run_fail(key, base, len, span@, gf, j as nat, gl);
                        assert(open_run(key, base, len, span@, gf, (gl - gf + 1) as nat) is None);
                        assert forall|data: Seq<u8>|
                            data.len() == self.plain_size() && span@.len() == span_len(data.len(), gf, gl)
                            && #[trigger] span_holds(key, base, data, span@, gf, gl + 1)
                            implies false by {
                            assert(span_ct(span@, data.len(), gf, j as nat) == sealed_chunk(key, base, data, j as nat));
                            assert(ct@ == sealed_chunk(self.key_view(), self.base_view(), data, j as nat));
                        }
                    }
                    return Err(err);
                },
            }
            j = j + 1;
        }
        let a: usize = (s - first * (CHUNK as u64)) as usize;
        let b: usize = (e - first * (CHUNK as u64)) as usize;
        let mut out: Vec<u8> = Vec::new();
        append_bytes(&mut out, &acc[a..b]);
        proof {
            assert forall|data: Seq<u8>|
                data.len() == self.plain_size() && span@.len() == span_len(data.len(), gf, gl)
                && #[trigger] span_holds(key, base, data, span@, gf, gl + 1)
                implies out@ == data.subrange(s as int, e as int) by {
                lemma_plain_run(data, gf, (last - first + 1) as nat);
                assert(acc@ == plain_run(data, gf, (last - first + 1) as nat));
                assert(out@ =~= data.subrange(s as int, e as int));
            }
        }
        Ok(out)
    }
}


/// The end (exclusive) of a read of `n` bytes from `start`, cut at the end of the plaintext.
pub open spec fn read_end(start: u64, n: usize, len: u64) -> nat {
    if start + n < len {
        (start + n) as nat
    } else {
        len as nat
    }
}

/// The ciphertext body of a sealed container holds each sealed chunk in place.
proof fn lemma_sealed_body(key: Seq<u8>, base: Seq<u8>, data: Seq<u8>, c: Seq<u8>)
    requires
        sealed_as(key, base, data, c),
        data.len() > 0,
    ensures
        ({
            let body = c.subrange(HEADER as int, c.len() as int);
            let last = last_chunk(data.len());
            &&& first_chunk(0) == 0
            &&& last + 1 == chunk_count(data.len())
            &&& body.len() == span_len(data.len(), 0, last)
            &&& span_holds(key, base, data, body, 0, last + 1)
        }),
{
    let len = data.len();
    let body = c.subrange(HEADER as int, c.len() as int);
    let last = last_chunk(len);
    lemma_chunk_count_bounds(len);
    assert(first_chunk(0) == 0);
    assert(body_len(len, 0) == 0);
    assert forall|j: nat| 0 <= j < last + 1 implies #[trigger] span_ct(body, len, 0, j) == sealed_chunk(key, base, data, j) by {
        lemma_body_len_mono(len, j, j + 1);
        lemma_body_len_mono(len, j + 1, chunk_count(len));
        assert(span_ct(body, len, 0, j) =~= ct_at(c, HEADER as int, len, j));
    }
}

/// A range read of a sealed container gives back the plaintext: for a
/// container `c` of `data`, the bytes that `range_span` points to (from
/// `HEADER + body_len(len, first)`, `span_len(len, first, last)` long) lie
/// inside `c` and hold the sealed chunks `first..=last`, which is what
/// `read_range` needs to return `data[start..end]`.
pub proof fn lemma_range_of_sealed(key: Seq<u8>, base: Seq<u8>, data: Seq<u8>, c: Seq<u8>, start: nat, end: nat)
    requires
        sealed_as(key, base, data, c),
        start < end <= data.len(),
    ensures
        ({
            let len = data.len();
            let first = first_chunk(start);
            let last = last_chunk(end);
            let off = HEADER + body_len(len, first);
            let size = span_len(len, first, last);
            &&& off + size <= c.len()
            &&& span_holds(key, base, data, c.subrange(off as int, (off + size) as int), first, last + 1)
        }),
{
    let len = data.len();
    let first = first_chunk(start);
    let last = last_chunk(end);
    let off = HEADER + body_len(len, first);
    let size = span_len(len, first, last);
    let span = c.subrange(off as int, (off + size) as int);
    lemma_range_geometry(len, start, end);
    lemma_body_len_mono(len, first, last + 1);
    lemma_body_len_mono(len, last + 1, chunk_count(len));
    assert forall|j: nat| first <= j < last + 1 implies #[trigger] span_ct(span, len, first, j) == sealed_chunk(
        key,
        base,
        data,
        j,
    ) by {
        lemma_body_len_mono(len, first, j);
        lemma_body_len_mono(len, j, j + 1);
        lemma_body_len_mono(len, j + 1, last + 1);
        assert(span_ct(span, len, first, j) =~= ct_at(c, HEADER as int, len, j));
    }
}

impl EncryptedFile {
    /// Decrypts up to `n` plaintext bytes from `start` (fewer at the end of
    /// the file). `span` is the container's ciphertext from `range_span`.
    pub fn read_range(&self, start: u64, n: usize, span: &[u8]) -> (r: Result<Vec<u8>, CryptoError>)
        requires
            self.wf(),
            start + n <= u64::MAX,
        ensures
            ({
                let len = self.plain_size() as nat;
                let e = read_end(start, n, self.plain_size());
                let first = first_chunk(start as nat);
                let last = last_chunk(e);
                &&& start >= e ==> (r matches Ok(v) && v@.len() == 0)
                &&& start < e && span@.len() != span_len(len, first, last) ==> r == Err::<Vec<u8>, CryptoError>(
                    CryptoError::Truncated,
                )
                &&& start < e && span@.len() == span_len(len, first, last) ==> match open_run(
                    self.key_view(),
                    self.base_view(),
                    len,
                    span@,
                    first,
                    (last - first + 1) as nat,
                ) {
                    Some(p) => r matches Ok(v) && v@ == p.subrange(start - first * CHUNK, e - first * CHUNK),
                    None => r == Err::<Vec<u8>, CryptoError>(CryptoError::DecryptFailed),
                }
            }),
            forall|data: Seq<u8>|
                data.len() == self.plain_size() && start < read_end(start, n, self.plain_size()) && span@.len() == span_len(
                    data.len(),
                    first_chunk(start as nat),
                    last_chunk(read_end(start, n, self.plain_size())),
                ) && #[trigger] span_holds(
                    self.key_view(),
                    self.base_view(),
                    data,
                    span@,
                    first_chunk(start as nat),
                    last_chunk(read_end(start, n, self.plain_size())) + 1,
                ) ==> (r matches Ok(v) && v@ == data.subrange(start as int, read_end(start, n, self.plain_size()) as int)),
    {
        let end: u64 = if start + (n as u64) < self.plaintext_len { start + (n as u64) } else { self.plaintext_len };
        if start >= end {
            return Ok(Vec::new());
        }
        self.read_between(start, end, span)
    }

    /// The ciphertext that `read_range(start, n, ..)` needs: its offset in
    /// the container and its length; nothing when there is nothing to read.
    pub fn range_span(&self, start: u64, n: usize) -> (r: Option<(u64, u64)>)
        requires
            start + n <= u64::MAX,
        ensures
            ({
                let len = self.plain_size() as nat;
                let e = read_end(start, n, self.plain_size());
                let first = first_chunk(start as nat);
                let last = last_chunk(e);
                &&& start >= e ==> r is None
                &&& start < e && HEADER + body_len(len, first) + span_len(len, first, last) <= u64::MAX
                    ==> r == Some(((HEADER + body_len(len, first)) as u64, span_len(len, first, last) as u64))
                &&& start < e && HEADER + body_len(len, first) + span_len(len, first, last) > u64::MAX
                    ==> r is None
            }),
    {
        let end: u64 = if start + (n as u64) < self.plaintext_len { start + (n as u64) } else { self.plaintext_len };
        if start >= end {
            return None;
        }
        let ghost len = self.plain_size() as nat;
        let first: u64 = start / (CHUNK as u64);
        let last: u64 = (end - 1) / (CHUNK as u64);
        proof {
            lemma_range_geometry(len, start as nat, end as nat);
            lemma_plain_len(len, last as nat);
        }
        let lo_last: u64 = last * (CHUNK as u64);
        let pl_last: u64 = if self.plaintext_len - lo_last >= CHUNK as u64 { CHUNK as u64 } else { self.plaintext_len - lo_last };
        let off: u128 = HEADER as u128 + (first as u128) * ((CHUNK + TAG) as u128);
        let size: u128 = ((last - first) as u128) * ((CHUNK + TAG) as u128) + pl_last as u128 + TAG as u128;
        if off + size > u64::MAX as u128 {
            return None;
        }
        Some((off as u64, size as u64))
    }

    /// Decrypts the whole plaintext from `body`, the container's bytes after
    /// the header.
    pub fn read_all(&self, body: &[u8]) -> (r: Result<Vec<u8>, CryptoError>)
        requires
            self.wf(),
        ensures
            ({
                let len = self.plain_size() as nat;
                let last = last_chunk(len);
                &&& len == 0 ==> (r matches Ok(v) && v@.len() == 0)
                &&& len > 0 && body@.len() != span_len(len, 0, last) ==> r == Err::<Vec<u8>, CryptoError>(
                    CryptoError::Truncated,
                )
                &&& len > 0 && body@.len() == span_len(len, 0, last) ==> match open_run(
                    self.key_view(),
                    self.base_view(),
                    len,
                    body@,
                    0,
                    last + 1,
                ) {
                    Some(p) => r matches Ok(v) && v@ == p.subrange(0, len as int),
                    None => r == Err::<Vec<u8>, CryptoError>(CryptoError::DecryptFailed),
                }
            }),
            forall|data: Seq<u8>|
                data.len() == self.plain_size() && data.len() > 0 && body@.len() == span_len(data.len(), 0, last_chunk(data.len()))
                    && #[trigger] span_holds(self.key_view(), self.base_view(), data, body@, 0, last_chunk(data.len()) + 1)
                    ==> (r matches Ok(v) && v@ == data),
    {
        if self.plaintext_len == 0 {
            return Ok(Vec::new());
        }
        proof {
            assert(first_chunk(0) == 0);
        }
        let r = self.read_between(0, self.plaintext_len, body);
        proof {
            assert forall|data: Seq<u8>|
                data.len() == self.plain_size() && data.len() > 0 && body@.len() == span_len(data.len(), 0, last_chunk(data.len()))
                    && #[trigger] span_holds(self.key_view(), self.base_view(), data, body@, 0, last_chunk(data.len()) + 1)
                    implies (r matches Ok(v) && v@ == data) by {
                assert(data.subrange(0, data.len() as int) =~= data);
            }
        }
        r
    }
}

/// Decrypts a whole container held in memory.
pub fn decrypt_bytes(key: &Key, container: &[u8]) -> (r: Result<Vec<u8>, CryptoError>)
    ensures
        container@.len() < HEADER ==> r == Err::<Vec<u8>, CryptoError>(CryptoError::Truncated),
        container@.len() >= HEADER && container@.subrange(0, 5) != magic() ==> r == Err::<Vec<u8>, CryptoError>(
            CryptoError::NotMediaNest,
        ),
        forall|base: Seq<u8>, data: Seq<u8>|
            base.len() == 16 && #[trigger] sealed_as(key@, base, data, container@) ==> (r matches Ok(v) && v@ == data),
        container@.len() >= HEADER && container@.subrange(0, 5) == magic() ==> ({
            let len = le8_value(container@.subrange(21, 29)) as nat;
            let base = container@.subrange(5, 21);
            let body = container@.subrange(HEADER as int, container@.len() as int);
            let last = last_chunk(len);
            &&& len == 0 ==> (r matches Ok(v) && v@.len() == 0)
            &&& len > 0 && body.len() != span_len(len, 0, last) ==> r == Err::<Vec<u8>, CryptoError>(
                CryptoError::Truncated,
            )
            &&& len > 0 && body.len() == span_len(len, 0, last) ==> match open_run(key@, base, len, body, 0, last + 1) {
                Some(p) => r matches Ok(v) && v@ == p.subrange(0, len as int),
                None => r == Err::<Vec<u8>, CryptoError>(CryptoError::DecryptFailed),
            }
        }),
{
    let f = match EncryptedFile::open(key, container) {
        Ok(f) => f,
        Err(e) => {
            proof {
                assert forall|base: Seq<u8>, data: Seq<u8>|
                    base.len() == 16 && #[trigger] sealed_as(key@, base, data, container@) implies false by {
                    lemma_body_len_mono(data.len(), 0, chunk_count(data.len()));
                    assert(header_for(base, data.len() as u64) == container@.subrange(0, HEADER as int));
                }
            }
            return Err(e);
        },
    };
    let cl = container.len();
    let body = &container[HEADER..cl];
    let r = f.read_all(body);
    proof {
        assert(body@ =~= container@.subrange(HEADER as int, container@.len() as int));
        assert forall|base: Seq<u8>, data: Seq<u8>|
            base.len() == 16 && #[trigger] sealed_as(key@, base, data, container@) implies (r matches Ok(v) && v@ == data) by {
            lemma_body_len_mono(data.len(), 0, chunk_count(data.len()));
            lemma_body_len_total(data.len());
            assert(data.len() <= cl);
            assert(data.len() as u64 == data.len());
            assert(header_for(base, data.len() as u64) == container@.subrange(0, HEADER as int));
            assert(f.base_view() == base && f.plain_size() == data.len() as u64);
            if data.len() > 0 {
                lemma_sealed_body(key@, base, data, container@);
                assert(body@ =~= container@.subrange(HEADER as int, container@.len() as int));
            } else {
                assert(data =~= Seq::<u8>::empty());
            }
        }
    }
    r
}

// ── keys and randomness ─────────────────────────────────────────────────

/// `getrandom::getrandom`: fills the buffer from the operating system's
/// source of randomness, or reports that it could not; an empty buffer
/// needs nothing and always succeeds. The bytes are chance.
#[verifier::external_body]
fn os_random(buf: &mut Vec<u8>) -> (ok: bool)
    ensures
        final(buf)@.len() == old(buf)@.len(),
        old(buf)@.len() == 0 ==> ok,
{
    getrandom::getrandom(buf.as_mut_slice()).is_ok()
}

/// `n` random bytes from the operating system, or nothing when it has none
/// to give (zero bytes are always given).
pub fn random_bytes(n: usize) -> (r: Option<Vec<u8>>)
    ensures
        r matches Some(v) ==> v@.len() == n,
        n == 0 ==> r is Some,
{
    let mut buf: Vec<u8> = Vec::new();
    let mut i: usize = 0;
    while i < n
        invariant
            i <= n,
            buf@.len() == i,
        decreases n - i,
    {
        buf.push(0u8);
        i = i + 1;
    }
    if os_random(&mut buf) {
        Some(buf)
    } else {
        None
    }
}

/// Encrypts `data` into a new container with a fresh random base nonce.
pub fn encrypt_bytes(key: &Key, data: &[u8]) -> (r: Result<Vec<u8>, CryptoError>)
    ensures
        match r {
            Ok(c) => exists|base: Seq<u8>| base.len() == 16 && #[trigger] sealed_as(key@, base, data@, c@),
            Err(e) => e == CryptoError::NoRandomness,
        },
{
    match random_bytes(16) {
        Some(base) => {
            let c = seal(key, base.as_slice(), data);
            let ghost cv = c@;
            let ghost bv = base@;
            let res: Result<Vec<u8>, CryptoError> = Ok(c);
            proof {
                assert(bv.len() == 16 && sealed_as(key@, bv, data@, cv));
                assert(res matches Ok(c2) && c2@ == cv);
            }
            res
        },
        None => Err(CryptoError::NoRandomness),
    }
}

#[verifier::external_type_specification]
#[verifier::external_body]
pub struct ExArgon2Error(argon2::Error);

/// The 32-byte Argon2id key for a password and a salt.
pub uninterp spec fn argon2id_key(password: Seq<u8>, salt: Seq<u8>) -> Seq<u8>;

/// `argon2::Argon2::default().hash_password_into` with a 32-byte output
/// (Argon2id, version 0x13, the crate's default costs). For that output the
/// crate refuses only a password longer than `0xFFFF_FFFF` bytes or a salt
/// shorter than 8 or longer than `0xFFFF_FFFF` bytes.
#[verifier::external_body]
fn argon2id_hash(password: &[u8], salt: &[u8]) -> (r: Result<Key, argon2::Error>)
    ensures
        r is Ok <==> (password@.len() <= 0xffff_ffff && 8 <= salt@.len() <= 0xffff_ffff),
        r matches Ok(k) ==> k@ == argon2id_key(password@, salt@),
{
    let mut key = [0u8; 32];
    match argon2::Argon2::default().hash_password_into(password, salt, &mut key) {
        Ok(()) => Ok(key),
        Err(e) => Err(e),
    }
}

/// The text of an `argon2::Error` (its `Display`).
#[verifier::external_body]
fn argon2_message(e: &argon2::Error) -> String {
    e.to_string()
}

/// The album key for a password (Argon2id with the crate's default costs).
pub fn derive_key(password: &str, salt: &[u8]) -> (r: Result<Key, String>)
    ensures
        r is Ok <==> (password.spec_bytes().len() <= 0xffff_ffff && 8 <= salt@.len() <= 0xffff_ffff),
        r matches Ok(k) ==> k@ == argon2id_key(password.spec_bytes(), salt@),
{
    match argon2id_hash(password.as_bytes(), salt) {
        Ok(k) => Ok(k),
        Err(e) => Err(argon2_message(&e)),
    }
}

/// BLAKE3 in keyed mode: the 32-byte hash of `input` under a 32-byte key.
pub uninterp spec fn blake3_keyed(key: Seq<u8>, input: Seq<u8>) -> Seq<u8>;

/// `blake3::keyed_hash`: the 32-byte keyed hash of the input.
#[verifier::external_body]
fn keyed_hash(key: &[u8], input: &[u8]) -> (h: Vec<u8>)
    requires
        key@.len() == 32,
    ensures
        h@ == blake3_keyed(key@, input@),
        h@.len() == 32,
{
    let k: &[u8; 32] = key.try_into().unwrap();
    blake3::keyed_hash(k, input).as_bytes().to_vec()
}

/// The key under which verifiers are computed: "MediaNest-key-verifier-context-1".
pub open spec fn verifier_context() -> Seq<u8> {
    seq![
        77u8, 101u8, 100u8, 105u8, 97u8, 78u8, 101u8, 115u8, 116u8, 45u8, 107u8, 101u8, 121u8, 45u8, 118u8,
        101u8, 114u8, 105u8, 102u8, 105u8, 101u8, 114u8, 45u8, 99u8, 111u8, 110u8, 116u8, 101u8, 120u8,
        116u8, 45u8, 49u8,
    ]
}

/// What is stored to recognise a key without storing the key or the
/// password: the keyed BLAKE3 hash of the key.
pub fn key_verifier(key: &Key) -> (v: Vec<u8>)
    ensures
        v@ == blake3_keyed(verifier_context(), key@),
        v@.len() == 32,
{
    let ctx: Vec<u8> = vec![
        77u8, 101u8, 100u8, 105u8, 97u8, 78u8, 101u8, 115u8, 116u8, 45u8, 107u8, 101u8, 121u8, 45u8, 118u8,
        101u8, 114u8, 105u8, 102u8, 105u8, 101u8, 114u8, 45u8, 99u8, 111u8, 110u8, 116u8, 101u8, 120u8,
        116u8, 45u8, 49u8,
    ];
    proof {
        assert(ctx@ =~= verifier_context());
    }
    keyed_hash(ctx.as_slice(), key.as_slice())
}

} // verus!
