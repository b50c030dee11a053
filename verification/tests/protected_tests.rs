use medianest::crypto::{decrypt_bytes, encrypt_bytes, key_verifier};
use medianest::protected::{
    locked_rel, locked_thumb, new_album_keys, password_rule, plain_rel, unlock_key, SessionKeys,
};

#[test]
fn change_password_reencrypts() {
    let old = new_album_keys("stare").unwrap();
    let locked = encrypt_bytes(&old.key, b"tresc").unwrap();

    let plain = decrypt_bytes(&old.key, &locked).unwrap();
    let new = new_album_keys("nowe").unwrap();
    let relocked = encrypt_bytes(&new.key, &plain).unwrap();

    assert!(unlock_key("stare", &new.salt, &new.verifier).is_err());
    assert_eq!(unlock_key("nowe", &new.salt, &new.verifier).unwrap(), new.key);
    assert_eq!(decrypt_bytes(&new.key, &relocked).unwrap(), b"tresc");
    assert!(decrypt_bytes(&old.key, &relocked).is_err());
}

#[test]
fn album_keys_unlock_only_with_their_password() {
    let keys = new_album_keys("haslo123").unwrap();
    assert_eq!(keys.salt.len(), 16);
    assert_eq!(keys.verifier, key_verifier(&keys.key));
    assert_eq!(unlock_key("zle", &keys.salt, &keys.verifier).unwrap_err(), "Nieprawidłowe hasło");
    assert_eq!(unlock_key("haslo123", &keys.salt, &keys.verifier).unwrap(), keys.key);
    assert!(unlock_key("haslo123", b"krotka", &keys.verifier).is_err());
}

#[test]
fn short_passwords_are_refused() {
    let msg = "Hasło musi mieć co najmniej 4 znaki";
    assert_eq!(password_rule("abc").unwrap_err(), msg);
    assert!(password_rule("abcd").is_ok());
    assert!(password_rule("żół").is_ok());
    assert_eq!(new_album_keys("").err().unwrap(), msg);
}

#[test]
fn session_keys_remember_unlocked_albums() {
    let mut keys = SessionKeys::new();
    assert_eq!(keys.get(1), None);
    assert!(keys.unlocked_ids().is_empty());

    keys.insert(1, [1u8; 32]);
    keys.insert(2, [2u8; 32]);
    keys.insert(1, [3u8; 32]);
    assert_eq!(keys.get(1), Some([3u8; 32]));
    assert_eq!(keys.get(2), Some([2u8; 32]));
    assert_eq!(keys.get(3), None);
    assert_eq!(keys.unlocked_ids(), vec![1, 2]);

    keys.lock_all();
    assert_eq!(keys.get(1), None);
    assert!(keys.unlocked_ids().is_empty());
}

#[test]
fn locked_names_roundtrip() {
    assert_eq!(locked_rel("prywatne.jpg"), "prywatne.jpg.mnlock");
    assert_eq!(plain_rel("prywatne.jpg.mnlock"), "prywatne.jpg");
    assert_eq!(plain_rel(&locked_rel("a/b.mp4")), "a/b.mp4");
    assert_eq!(plain_rel("zwykly.jpg"), "zwykly.jpg");
    assert_eq!(plain_rel(".mnlock"), "");
    assert_eq!(locked_thumb("thumbs/ab/abcdef.webp"), "thumbs/ab/abcdef.webp.mnlock");
}
