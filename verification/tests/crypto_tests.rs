use medianest::crypto::ChunkSealer;
use medianest::crypto::{
    decrypt_bytes, derive_key, encrypt_bytes, header_bytes, key_verifier, random_bytes, seal, CryptoError,
    EncryptedFile, Key, CHUNK, HEADER, TAG,
};

fn salt() -> Vec<u8> {
    random_bytes(16).unwrap()
}

fn body(container: &[u8]) -> &[u8] {
    &container[HEADER..]
}

#[test]
fn roundtrip_and_wrong_password() {
    let salt = salt();
    let key = derive_key("tajne haslo", &salt).unwrap();

    let data: Vec<u8> = (0..CHUNK + 12345).map(|i| (i % 251) as u8).collect();
    let locked = encrypt_bytes(&key, &data).unwrap();
    assert!(!locked.windows(64).any(|w| w == &data[..64]));

    let enc = EncryptedFile::open(&key, &locked).unwrap();
    assert_eq!(enc.plaintext_len, data.len() as u64);
    assert_eq!(enc.read_all(body(&locked)).unwrap(), data);

    let start = CHUNK as u64 - 100;
    let (off, size) = enc.range_span(start, 200).unwrap();
    let span = &locked[off as usize..(off + size) as usize];
    let range = enc.read_range(start, 200, span).unwrap();
    assert_eq!(range, &data[CHUNK - 100..CHUNK + 100]);

    let bad = derive_key("zle haslo", &salt).unwrap();
    let enc = EncryptedFile::open(&bad, &locked).unwrap();
    assert!(enc.read_all(body(&locked)).is_err());

    assert_eq!(decrypt_bytes(&key, &locked).unwrap(), data);
}

#[test]
fn verifier_detects_password() {
    let salt = salt();
    let k1 = derive_key("haslo", &salt).unwrap();
    let k2 = derive_key("haslo", &salt).unwrap();
    let k3 = derive_key("inne", &salt).unwrap();
    assert_eq!(key_verifier(&k1), key_verifier(&k2));
    assert_ne!(key_verifier(&k1), key_verifier(&k3));
}

#[test]
fn tampered_file_is_rejected() {
    let key = derive_key("x", &salt()).unwrap();
    let mut bytes = encrypt_bytes(&key, b"dane wrazliwe").unwrap();
    let last = bytes.len() - 1;
    bytes[last] ^= 0xFF;
    let enc = EncryptedFile::open(&key, &bytes).unwrap();
    assert!(enc.read_all(body(&bytes)).is_err());
    assert_eq!(decrypt_bytes(&key, &bytes), Err(CryptoError::DecryptFailed));
}

#[test]
fn empty_file_roundtrip() {
    let key = derive_key("x", &random_bytes(16).unwrap()).unwrap();
    let locked = encrypt_bytes(&key, b"").unwrap();
    assert_eq!(locked.len(), HEADER + TAG);
    let enc = EncryptedFile::open(&key, &locked).unwrap();
    assert_eq!(enc.read_all(body(&locked)).unwrap(), Vec::<u8>::new());
    assert_eq!(decrypt_bytes(&key, &locked).unwrap(), Vec::<u8>::new());
}

#[test]
fn header_layout() {
    let base: Vec<u8> = (1..=16).collect();
    let h = header_bytes(&base, 0x0102_0304_0506_0708);
    assert_eq!(h.len(), HEADER);
    assert_eq!(&h[..5], b"MNST1");
    assert_eq!(&h[5..21], &base[..]);
    assert_eq!(&h[21..], &[8, 7, 6, 5, 4, 3, 2, 1]);

    let key: Key = [7u8; 32];
    let enc = EncryptedFile::open(&key, &h).unwrap();
    assert_eq!(enc.plaintext_len, 0x0102_0304_0506_0708);
}

#[test]
fn sealed_container_sizes_and_ciphertext() {
    let key: Key = [3u8; 32];
    let base = [9u8; 16];
    let data: Vec<u8> = (0..CHUNK + 10).map(|i| (i % 7) as u8).collect();
    let c = seal(&key, &base, &data);
    assert_eq!(c.len(), HEADER + CHUNK + TAG + 10 + TAG);
    assert_ne!(&c[HEADER..HEADER + 64], &data[..64]);
    assert_eq!(seal(&key, &base, &data), c);
    assert_eq!(decrypt_bytes(&key, &c).unwrap(), data);
    let other = seal(&key, &[8u8; 16], &data);
    assert_ne!(other, c);
}

#[test]
fn open_refuses_short_and_foreign_headers() {
    let key: Key = [1u8; 32];
    assert_eq!(EncryptedFile::open(&key, b"MNST1").err(), Some(CryptoError::Truncated));
    let mut foreign = header_bytes(&[0u8; 16], 5);
    foreign[0] = b'X';
    assert_eq!(EncryptedFile::open(&key, &foreign).err(), Some(CryptoError::NotMediaNest));
    assert_eq!(decrypt_bytes(&key, &foreign), Err(CryptoError::NotMediaNest));
    assert_eq!(decrypt_bytes(&key, b"MN"), Err(CryptoError::Truncated));
    let c = seal(&key, &[0u8; 16], b"abc");
    assert_eq!(decrypt_bytes(&key, &c[..c.len() - 1]), Err(CryptoError::Truncated));
    assert_eq!(decrypt_bytes(&[2u8; 32], &c), Err(CryptoError::DecryptFailed));
}

#[test]
fn chunks_and_ranges() {
    let key: Key = [5u8; 32];
    let data: Vec<u8> = (0..2 * CHUNK + 1).map(|i| (i % 13) as u8).collect();
    let c = seal(&key, &[2u8; 16], &data);
    let enc = EncryptedFile::open(&key, &c).unwrap();
    assert_eq!(enc.chunk_count(), 3);
    assert_eq!(enc.chunk_span(0).unwrap(), (HEADER as u64, CHUNK + TAG));
    assert_eq!(enc.chunk_span(2).unwrap(), ((HEADER + 2 * (CHUNK + TAG)) as u64, 1 + TAG));
    assert_eq!(enc.chunk_span(3).err(), Some(CryptoError::OutOfFile));

    let (off, len) = enc.chunk_span(2).unwrap();
    let last = enc.read_chunk(2, &c[off as usize..off as usize + len]).unwrap();
    assert_eq!(last, &data[2 * CHUNK..]);

    assert_eq!(enc.range_span(data.len() as u64, 10), None);
    assert_eq!(enc.read_range(data.len() as u64, 10, &[]).unwrap(), Vec::<u8>::new());
    let (off, size) = enc.range_span(2 * CHUNK as u64 - 1, 100).unwrap();
    let span = &c[off as usize..(off + size) as usize];
    assert_eq!(enc.read_range(2 * CHUNK as u64 - 1, 100, span).unwrap(), &data[2 * CHUNK - 1..]);
    assert_eq!(enc.read_range(2 * CHUNK as u64 - 1, 100, &span[1..]).err(), Some(CryptoError::Truncated));
    assert_eq!(enc.read_all(&c[HEADER..c.len() - 1]).err(), Some(CryptoError::Truncated));
}

#[test]
fn key_derivation_needs_a_salt_of_eight_bytes() {
    assert!(derive_key("haslo", b"short").is_err());
    let k = derive_key("haslo", b"saltsalt").unwrap();
    assert_eq!(k, derive_key("haslo", b"saltsalt").unwrap());
    assert_ne!(&k[..5], b"haslo");
    let v = key_verifier(&k);
    assert_eq!(v.len(), 32);
    assert_ne!(&v[..], &k[..]);
}

#[test]
fn random_bytes_have_the_length_asked() {
    let a = random_bytes(16).unwrap();
    let b = random_bytes(16).unwrap();
    assert_eq!(a.len(), 16);
    assert_ne!(a, b);
    assert_eq!(random_bytes(0).unwrap().len(), 0);
}

#[test]
fn error_messages() {
    assert_eq!(CryptoError::NotMediaNest.message(), "to nie jest plik MediaNest");
    assert_eq!(CryptoError::Truncated.message(), "plik jest niekompletny");
    assert_eq!(CryptoError::OutOfFile.message(), "blok poza plikiem");
    assert_eq!(
        CryptoError::DecryptFailed.message(),
        "odszyfrowanie nie powiodło się (złe hasło lub uszkodzony plik)"
    );
    assert_eq!(CryptoError::NoRandomness.message(), "brak losowości systemu");
}

#[test]
fn streamed_sealing_matches_the_whole_container() {
    let key: Key = [4u8; 32];
    let base = [6u8; 16];
    for len in [0usize, 5, CHUNK, CHUNK + 1] {
        let data: Vec<u8> = (0..len).map(|i| (i % 17) as u8).collect();
        let (mut sealer, mut out) = ChunkSealer::start(&key, &base, len as u64);
        let mut pos = 0;
        let mut chunks = 0;
        while let Some(n) = sealer.next_len() {
            out.extend(sealer.seal_next(&data[pos..pos + n]));
            pos += n;
            chunks += 1;
        }
        assert_eq!(pos, len);
        assert_eq!(chunks, if len == 0 { 1 } else { (len - 1) / CHUNK + 1 });
        assert_eq!(out, seal(&key, &base, &data));
        assert_eq!(decrypt_bytes(&key, &out).unwrap(), data);
    }
}
