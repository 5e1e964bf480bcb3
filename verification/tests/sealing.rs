use rustpwman::envelope::check_password;
use rustpwman::envelope::open;
use rustpwman::envelope::seal;
use rustpwman::kdf::resolve_kdf;
use rustpwman::kdf::KdfId;
use rustpwman::kdf::DEFAULT_KDF_ID;
use rustpwman::store::Jots;
use rustpwman::store::JotsIter;
use rustpwman::PwmanError;

fn s(v: &str) -> String {
    String::from(v)
}

fn seal_open_round_trip(id: KdfId) {
    let plaintext: &[u8] = b"some secret bytes";
    let sealed = seal("a passphrase", id, plaintext).expect("seals");
    let opened = open("a passphrase", &sealed).expect("opens");
    assert_eq!(opened.as_slice(), plaintext);
}

#[test]
fn seal_open_round_trip_sha256() {
    seal_open_round_trip(KdfId::Sha256);
}

#[test]
fn seal_open_round_trip_sha3() {
    seal_open_round_trip(KdfId::Sha3);
}

#[test]
fn seal_open_round_trip_scrypt() {
    seal_open_round_trip(KdfId::Scrypt);
}

#[test]
fn seal_open_round_trip_argon2() {
    seal_open_round_trip(KdfId::Argon2);
}

fn store_round_trip(id: KdfId) {
    let mut j = Jots::new(id);
    j.insert(&s("alpha"), &s("one"));
    j.insert(&s("beta"), &s("two"));
    let sealed = j.to_enc_file("pw").expect("seals");
    let mut k = Jots::new(id);
    k.from_enc_file(&sealed, "pw").expect("opens");
    assert_eq!(k.len(), 2);
    assert_eq!(k.get(&s("alpha")), Some(s("one")));
    assert_eq!(k.get(&s("beta")), Some(s("two")));
    assert!(!k.is_dirty());
}

#[test]
fn store_round_trip_sha256() {
    store_round_trip(KdfId::Sha256);
}

#[test]
fn store_round_trip_sha3() {
    store_round_trip(KdfId::Sha3);
}

#[test]
fn store_round_trip_scrypt() {
    store_round_trip(KdfId::Scrypt);
}

#[test]
fn store_round_trip_argon2() {
    store_round_trip(KdfId::Argon2);
}

#[test]
fn example_session() {
    let mut j = Jots::new(resolve_kdf("argon2", DEFAULT_KDF_ID));
    assert!(j.add(&s("email"), &s("a@b.com")));
    assert!(j.add(&s("bank"), &s("1234")));
    let sealed = j.to_enc_file("Tr0ub4dor&3").expect("seals");
    let mut k = Jots::new(DEFAULT_KDF_ID);
    k.from_enc_file(&sealed, "Tr0ub4dor&3").expect("opens");
    assert_eq!(k.len(), 2);
    assert_eq!(k.get(&s("bank")), Some(s("1234")));
    assert_eq!(k.get(&s("email")), Some(s("a@b.com")));
    let mut it = JotsIter::new(&k);
    assert_eq!(it.next(), Some(s("bank")));
    assert_eq!(it.next(), Some(s("email")));
    assert_eq!(it.next(), None);
}

#[test]
fn tampering_any_byte_makes_open_fail() {
    let mut j = Jots::new(KdfId::Sha256);
    j.insert(&s("k"), &s("v"));
    let sealed = j.to_enc_file("correct horse").expect("seals");
    for i in 0..sealed.len() {
        let mut bent = sealed.clone();
        bent[i] ^= 1;
        assert_eq!(
            open("correct horse", &bent),
            Err(PwmanError::CannotOpen),
            "byte {} flipped, open must fail",
            i
        );
    }
}

#[test]
fn truncated_container_fails() {
    let sealed = seal("pw", KdfId::Sha256, b"data").expect("seals");
    for cut in [0usize, 1, 10, sealed.len() - 1] {
        assert_eq!(open("pw", &sealed[..cut]), Err(PwmanError::CannotOpen));
    }
}

fn wrong_password_fails_like_corruption(id: KdfId) {
    let sealed = seal("correct", id, b"payload").expect("seals");
    let wrong = open("wrong", &sealed);
    assert_eq!(wrong, Err(PwmanError::CannotOpen));
    let mut bent = sealed.clone();
    let last = bent.len() - 1;
    bent[last] ^= 0x80;
    let corrupted = open("correct", &bent);
    assert_eq!(wrong, corrupted, "both failures are the same kind");
}

#[test]
fn wrong_password_fails_like_corruption_sha256() {
    wrong_password_fails_like_corruption(KdfId::Sha256);
}

#[test]
fn wrong_password_fails_like_corruption_sha3() {
    wrong_password_fails_like_corruption(KdfId::Sha3);
}

#[test]
fn wrong_password_fails_like_corruption_scrypt() {
    wrong_password_fails_like_corruption(KdfId::Scrypt);
}

#[test]
fn wrong_password_fails_like_corruption_argon2() {
    wrong_password_fails_like_corruption(KdfId::Argon2);
}

#[test]
fn sealing_twice_differs() {
    let a = seal("pw", DEFAULT_KDF_ID, b"payload").expect("seals");
    let b = seal("pw", DEFAULT_KDF_ID, b"payload").expect("seals");
    assert_ne!(a, b, "a fresh salt and nonce make every seal distinct");
}

#[test]
fn sealed_bytes_do_not_embed_the_plaintext() {
    let payload = b"findable-plaintext-window";
    let sealed = seal("pw", KdfId::Sha256, payload).expect("seals");
    let found = sealed
        .windows(payload.len())
        .any(|w| w == payload);
    assert!(!found, "the payload must not appear in the container");
}

#[test]
fn failed_load_keeps_store_and_dirty_state() {
    let mut j = Jots::new(DEFAULT_KDF_ID);
    j.insert(&s("keep"), &s("me"));
    assert!(j.is_dirty());
    let r = j.from_enc_file(b"not an envelope", "pw");
    assert_eq!(r, Err(PwmanError::CannotOpen));
    assert_eq!(j.get(&s("keep")), Some(s("me")));
    assert!(j.is_dirty(), "a failed load leaves the dirty state unchanged");
}

#[test]
fn check_password_rejects_only_the_empty_password() {
    assert_eq!(check_password(""), Some(PwmanError::BadPassword));
    assert_eq!(check_password("x"), None);
    assert_eq!(check_password("Tr0ub4dor&3"), None);
}

#[test]
fn kdf_names_round_trip() {
    for id in KdfId::get_known_ids() {
        assert_eq!(KdfId::from_str(id.to_str()), Some(id));
    }
    assert_eq!(KdfId::from_str("sha256"), Some(KdfId::Sha256));
    assert_eq!(KdfId::from_str("sha3"), Some(KdfId::Sha3));
    assert_eq!(KdfId::from_str("scrypt"), Some(KdfId::Scrypt));
    assert_eq!(KdfId::from_str("argon2"), Some(KdfId::Argon2));
    assert_eq!(KdfId::from_str("bcrypt"), None);
    assert_eq!(KdfId::from_str(""), None);
}

#[test]
fn unknown_configured_kdf_falls_back_to_the_default() {
    assert_eq!(resolve_kdf("scrypt", DEFAULT_KDF_ID), KdfId::Scrypt);
    assert_eq!(resolve_kdf("no such kdf", DEFAULT_KDF_ID), DEFAULT_KDF_ID);
    assert_eq!(resolve_kdf("", KdfId::Sha3), KdfId::Sha3);
}

#[test]
fn file_kdf_id_decides_how_a_container_opens() {
    // A store bound to one algorithm still opens a container sealed
    // under another: the container records its own algorithm.
    let mut j = Jots::new(KdfId::Sha256);
    j.insert(&s("a"), &s("1"));
    let sealed = j.to_enc_file("pw").expect("seals");
    let mut k = Jots::new(KdfId::Argon2);
    k.from_enc_file(&sealed, "pw").expect("opens despite another bound kdf");
    assert_eq!(k.get(&s("a")), Some(s("1")));
    assert_eq!(k.kdf_id, KdfId::Argon2, "the store keeps its own choice for future writes");
}

#[test]
fn empty_store_round_trips() {
    let j = Jots::new(KdfId::Sha3);
    let sealed = j.to_enc_file("pw").expect("seals");
    let mut k = Jots::new(KdfId::Sha3);
    k.insert(&s("stale"), &s("x"));
    k.from_enc_file(&sealed, "pw").expect("opens");
    assert_eq!(k.len(), 0);
    assert!(!k.is_dirty());
}
