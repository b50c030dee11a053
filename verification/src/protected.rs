//! Protected albums: the session keys of unlocked albums, the password rule,
//! creating and checking album keys, and the names of encrypted files.

use vstd::prelude::*;
use vstd::string::StringExecFns;
use vstd::string::StringSliceAdditionalSpecFns;

use std::collections::HashMap;
use zeroize::Zeroizing;

use crate::crypto::{
    argon2id_key, blake3_keyed, derive_key, key_verifier, random_bytes, verifier_context, Key,
};
use crate::text::{chars_of, push_str, string_of};

verus! {

/// A key held in `zeroize::Zeroizing`, which wipes it from memory when it
/// is dropped. (Verus refuses a declaration of `Zeroizing` itself, whose
/// parameter is bound by the crate's `Zeroize` trait, so the wrapper is held
/// in a field hidden from Verus.)
#[verifier::external_body]
pub struct WipedKey {
    inner: Zeroizing<Key>,
}

/// The key held inside a `WipedKey`.
pub uninterp spec fn wiped_key(z: WipedKey) -> Seq<u8>;

/// `Zeroizing::new`: the wrapper holds the key given.
#[verifier::external_body]
fn wrap_key(key: Key) -> (z: WipedKey)
    ensures
        wiped_key(z) == key@,
{
    WipedKey { inner: Zeroizing::new(key) }
}

/// `Zeroizing`'s `Deref`: a copy of the key held.
#[verifier::external_body]
fn unwrap_key(z: &WipedKey) -> (k: Key)
    ensures
        k@ == wiped_key(*z),
{
    *z.inner
}

/// The keys of the albums unlocked in this session, kept in memory only and
/// wiped when dropped, with the unlocked albums in the order they were first
/// unlocked.
pub struct SessionKeys {
    keys: HashMap<i64, WipedKey>,
    ids: Vec<i64>,
}

impl View for SessionKeys {
    type V = Map<i64, Seq<u8>>;

    closed spec fn view(&self) -> Map<i64, Seq<u8>> {
        self.keys@.map_values(|z: WipedKey| wiped_key(z))
    }
}

impl SessionKeys {
    /// The list of unlocked albums matches the keys held.
    pub closed spec fn wf(&self) -> bool {
        &&& self.ids@.no_duplicates()
        &&& self.ids@.to_set() == self.keys@.dom()
    }

    /// No album unlocked.
    pub fn new() -> (s: SessionKeys)
        ensures
            s.wf(),
            s@ == Map::<i64, Seq<u8>>::empty(),
    {
        let s = SessionKeys { keys: HashMap::new(), ids: Vec::new() };
        proof {
            assert(s.ids@.to_set() =~= s.keys@.dom());
            assert(s@ =~= Map::<i64, Seq<u8>>::empty());
        }
        s
    }

    /// The key of an unlocked album.
    pub fn get(&self, album_id: i64) -> (r: Option<Key>)
        ensures
            self@.contains_key(album_id) ==> (r matches Some(k) && k@ == self@[album_id]),
            !self@.contains_key(album_id) ==> r is None,
    {
        broadcast use vstd::std_specs::hash::group_hash_axioms;

        match self.keys.get(&album_id) {
            Some(z) => Some(unwrap_key(z)),
            None => None,
        }
    }

    /// The unlocked albums, each once.
    pub fn unlocked_ids(&self) -> (ids: Vec<i64>)
        requires
            self.wf(),
        ensures
            ids@.to_set() == self@.dom(),
            ids@.no_duplicates(),
    {
        proof {
            assert(self@.dom() =~= self.keys@.dom());
        }
        self.ids.clone()
    }

    /// Keeps the key of an unlocked album (replacing an older one).
    pub fn insert(&mut self, album_id: i64, key: Key)
        requires
            old(self).wf(),
        ensures
            final(self).wf(),
            final(self)@ == old(self)@.insert(album_id, key@),
    {
        broadcast use vstd::std_specs::hash::group_hash_axioms;

        let z = wrap_key(key);
        let known = self.keys.contains_key(&album_id);
        let ghost old_ids = self.ids@;
        if !known {
            self.ids.push(album_id);
            proof {
                assert forall|x: i64| self.ids@.to_set().contains(x) <==> old_ids.to_set().insert(album_id).contains(x) by {
                    if self.ids@.contains(x) {
                        let k = choose|k: int| 0 <= k < self.ids@.len() && self.ids@[k] == x;
                        if k < old_ids.len() {
                            assert(old_ids[k] == x);
                            assert(old_ids.contains(x));
                        }
                    }
                    if old_ids.contains(x) {
                        let k = choose|k: int| 0 <= k < old_ids.len() && old_ids[k] == x;
                        assert(self.ids@[k] == x);
                    }
                    if x == album_id {
                        assert(self.ids@[self.ids@.len() - 1] == x);
                    }
                }
                assert(self.ids@.to_set() =~= old_ids.to_set().insert(album_id));
                assert forall|a: int, b: int| 0 <= a < b < self.ids@.len() implies self.ids@[a] != self.ids@[b] by {
                    if b == self.ids@.len() - 1 {
                        assert(old_ids.contains(old_ids[a]));
                        assert(old_ids.to_set().contains(old_ids[a]));
                    } else {
                        assert(self.ids@[a] == old_ids[a] && self.ids@[b] == old_ids[b]);
                    }
                }
            }
        }
        self.keys.insert(album_id, z);
        proof {
            assert(self.ids@.to_set() =~= self.keys@.dom());
        }
        proof {
            assert(self@ =~= old(self)@.insert(album_id, key@));
        }
    }

    /// Forgets every key: all protected albums are locked again.
    pub fn lock_all(&mut self)
        ensures
            final(self).wf(),
            final(self)@ == Map::<i64, Seq<u8>>::empty(),
    {
        *self = SessionKeys::new();
    }
}

// ── passwords and album keys ────────────────────────────────────────────

/// A password needs at least this many bytes.
pub const MIN_PASSWORD_BYTES: usize = 4;

/// The refusal of a too short password.
pub fn password_rule(password: &str) -> (r: Result<(), String>)
    ensures
        password.spec_bytes().len() < MIN_PASSWORD_BYTES ==> (r matches Err(e) && e@
            == "Hasło musi mieć co najmniej 4 znaki"@),
        password.spec_bytes().len() >= MIN_PASSWORD_BYTES ==> r is Ok,
{
    let bytes = password.as_bytes();
    if bytes.len() < MIN_PASSWORD_BYTES {
        Err(String::from_str("Hasło musi mieć co najmniej 4 znaki"))
    } else {
        Ok(())
    }
}

/// What a new protected album stores (salt and key verifier) and the key
/// it is unlocked with.
pub struct AlbumKeys {
    pub salt: Vec<u8>,
    pub key: Key,
    pub verifier: Vec<u8>,
}

/// Keys for a new protected album: a random 16-byte salt, the key derived
/// from the password and that salt, and the key's verifier.
pub fn new_album_keys(password: &str) -> (r: Result<AlbumKeys, String>)
    ensures
        password.spec_bytes().len() < MIN_PASSWORD_BYTES ==> (r matches Err(e) && e@
            == "Hasło musi mieć co najmniej 4 znaki"@),
        MIN_PASSWORD_BYTES <= password.spec_bytes().len() <= 0xffff_ffff && r is Err ==> (r matches Err(e) && e@
            == "brak losowości systemu"@),
        r matches Ok(k) ==> {
            &&& k.salt@.len() == 16
            &&& k.key@ == argon2id_key(password.spec_bytes(), k.salt@)
            &&& k.verifier@ == blake3_keyed(verifier_context(), k.key@)
        },
{
    password_rule(password)?;
    let salt = match random_bytes(16) {
        Some(s) => s,
        None => return Err(crate::crypto::CryptoError::NoRandomness.message()),
    };
    let key = derive_key(password, salt.as_slice())?;
    let verifier = key_verifier(&key);
    Ok(AlbumKeys { salt, key, verifier })
}

/// Checks a password against an album's salt and verifier: the album key
/// when the password is right.
pub fn unlock_key(password: &str, salt: &[u8], verifier: &[u8]) -> (r: Result<Key, String>)
    ensures
        r matches Ok(k) ==> k@ == argon2id_key(password.spec_bytes(), salt@) && verifier@ == blake3_keyed(
            verifier_context(),
            k@,
        ),
        (password.spec_bytes().len() <= 0xffff_ffff && 8 <= salt@.len() <= 0xffff_ffff && verifier@
            != blake3_keyed(verifier_context(), argon2id_key(password.spec_bytes(), salt@))) ==> (r matches Err(e)
            && e@ == "Nieprawidłowe hasło"@),
        (password.spec_bytes().len() <= 0xffff_ffff && 8 <= salt@.len() <= 0xffff_ffff && verifier@
            == blake3_keyed(verifier_context(), argon2id_key(password.spec_bytes(), salt@))) ==> (r matches Ok(k)
            && k@ == argon2id_key(password.spec_bytes(), salt@)),
        !(password.spec_bytes().len() <= 0xffff_ffff && 8 <= salt@.len() <= 0xffff_ffff) ==> r is Err,
{
    let key = derive_key(password, salt)?;
    let v = key_verifier(&key);
    if !crate::dedup::bytes_eq(v.as_slice(), verifier) {
        return Err(String::from_str("Nieprawidłowe hasło"));
    }
    Ok(key)
}

// ── encrypted file names ────────────────────────────────────────────────

/// The suffix of an encrypted file.
pub open spec fn lock_suffix() -> Seq<char> {
    ".mnlock"@
}

/// The path of the encrypted copy of a file: its path with ".mnlock".
pub fn locked_rel(rel: &str) -> (r: String)
    ensures
        r@ == rel@ + lock_suffix(),
{
    let mut r = String::from_str(rel);
    push_str(&mut r, ".mnlock");
    r
}

/// The path of a decrypted file: without the ".mnlock" suffix, or unchanged
/// when it has none.
pub fn plain_rel(locked: &str) -> (r: String)
    ensures
        ({
            let n = locked@.len();
            let k = lock_suffix().len();
            if n >= k && locked@.subrange(n - k, n as int) == lock_suffix() {
                r@ == locked@.subrange(0, n - k)
            } else {
                r@ == locked@
            }
        }),
{
    let v = chars_of(locked);
    let suffix = chars_of(".mnlock");
    let n = v.len();
    let k = suffix.len();
    if n >= k {
        let tail = string_of(&v, n - k, n);
        if crate::text::str_eq(tail.as_str(), ".mnlock") {
            return string_of(&v, 0, n - k);
        }
    }
    let r = string_of(&v, 0, n);
    proof {
        assert(v@.subrange(0, n as int) =~= v@);
    }
    r
}

/// Decrypting undoes the name change of encrypting.
pub proof fn lemma_plain_of_locked(rel: Seq<char>)
    ensures
        ({
            let locked = rel + lock_suffix();
            let n = locked.len();
            let k = lock_suffix().len();
            n >= k && locked.subrange(n - k, n as int) == lock_suffix() && locked.subrange(0, n - k) == rel
        }),
{
    let locked = rel + lock_suffix();
    assert(locked.subrange(locked.len() - lock_suffix().len(), locked.len() as int) =~= lock_suffix());
    assert(locked.subrange(0, locked.len() - lock_suffix().len()) =~= rel);
}

/// The encrypted thumbnail of a protected file: its thumbnail path with ".mnlock".
pub fn locked_thumb(thumb_path: &str) -> (r: String)
    ensures
        r@ == thumb_path@ + lock_suffix(),
{
    locked_rel(thumb_path)
}

} // verus!
