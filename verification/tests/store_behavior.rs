use rustpwman::kdf::KdfId;
use rustpwman::kdf::DEFAULT_KDF_ID;
use rustpwman::store::Jots;
use rustpwman::store::JotsIter;
use rustpwman::store::KvEntry;
use rustpwman::PwmanError;

fn s(v: &str) -> String {
    String::from(v)
}

fn names_of(j: &Jots) -> Vec<String> {
    let mut it = JotsIter::new(j);
    let mut out = Vec::new();
    while let Some(n) = it.next() {
        out.push(n);
    }
    out
}

#[test]
fn fresh_store_is_empty_and_clean() {
    let j = Jots::new(DEFAULT_KDF_ID);
    assert_eq!(j.len(), 0);
    assert!(!j.is_dirty());
    assert_eq!(j.get(&s("anything")), None);
    assert!(!j.entry_exists(&s("anything")));
}

#[test]
fn kv_entry_holds_copies() {
    let e = KvEntry::new(&s("name"), &s("text"));
    assert_eq!(e.key, "name");
    assert_eq!(e.value, "text");
}

#[test]
fn insert_get_overwrite() {
    let mut j = Jots::new(KdfId::Argon2);
    j.insert(&s("a"), &s("1"));
    assert_eq!(j.get(&s("a")), Some(s("1")));
    assert_eq!(j.len(), 1);
    j.insert(&s("a"), &s("2"));
    assert_eq!(j.get(&s("a")), Some(s("2")));
    assert_eq!(j.len(), 1);
}

#[test]
fn add_refuses_duplicate_name() {
    let mut j = Jots::new(DEFAULT_KDF_ID);
    assert!(j.add(&s("k"), &s("v1")));
    assert!(!j.add(&s("k"), &s("v2")));
    assert_eq!(j.get(&s("k")), Some(s("v1")));
}

#[test]
fn add_refuses_empty_name() {
    let mut j = Jots::new(DEFAULT_KDF_ID);
    assert!(!j.add(&s(""), &s("v")));
    assert_eq!(j.len(), 0);
    assert!(!j.is_dirty());
}

#[test]
fn remove_deletes_and_tolerates_absence() {
    let mut j = Jots::new(DEFAULT_KDF_ID);
    j.insert(&s("a"), &s("x"));
    j.remove(&s("a"));
    assert_eq!(j.get(&s("a")), None);
    assert_eq!(j.len(), 0);
    j.remove(&s("missing"));
    assert_eq!(j.len(), 0);
}

#[test]
fn rename_moves_text() {
    let mut j = Jots::new(DEFAULT_KDF_ID);
    j.insert(&s("a"), &s("x"));
    assert!(j.rename(&s("a"), &s("b")));
    assert_eq!(j.get(&s("a")), None);
    assert_eq!(j.get(&s("b")), Some(s("x")));
}

#[test]
fn rename_fails_for_missing_source() {
    let mut j = Jots::new(DEFAULT_KDF_ID);
    j.insert(&s("a"), &s("x"));
    assert!(!j.rename(&s("missing"), &s("c")));
    assert_eq!(j.get(&s("a")), Some(s("x")));
    assert_eq!(j.get(&s("c")), None);
    assert_eq!(j.len(), 1);
}

#[test]
fn rename_fails_when_target_exists() {
    let mut j = Jots::new(DEFAULT_KDF_ID);
    j.insert(&s("a"), &s("x"));
    j.insert(&s("b"), &s("y"));
    assert!(!j.rename(&s("a"), &s("b")));
    assert_eq!(j.get(&s("a")), Some(s("x")));
    assert_eq!(j.get(&s("b")), Some(s("y")));
}

#[test]
fn dirty_tracking_on_mutations() {
    let mut j = Jots::new(DEFAULT_KDF_ID);
    assert!(!j.is_dirty());
    j.insert(&s("a"), &s("1"));
    assert!(j.is_dirty());
    j.mark_as_clean();
    assert!(!j.is_dirty());
    j.remove(&s("a"));
    assert!(j.is_dirty());
    j.mark_as_clean();
    j.insert(&s("a"), &s("1"));
    j.mark_as_clean();
    assert!(j.rename(&s("a"), &s("b")));
    assert!(j.is_dirty());
}

#[test]
fn failed_add_and_rename_leave_dirty_unchanged() {
    let mut j = Jots::new(DEFAULT_KDF_ID);
    j.insert(&s("a"), &s("1"));
    j.mark_as_clean();
    assert!(!j.add(&s("a"), &s("2")));
    assert!(!j.is_dirty());
    assert!(!j.rename(&s("missing"), &s("b")));
    assert!(!j.is_dirty());
}

#[test]
fn iteration_is_sorted_whatever_the_insertion_order() {
    let mut j = Jots::new(DEFAULT_KDF_ID);
    for name in ["pear", "apple", "zebra", "banana", "cherry"] {
        j.insert(&s(name), &s("v"));
    }
    assert_eq!(
        names_of(&j),
        vec![s("apple"), s("banana"), s("cherry"), s("pear"), s("zebra")]
    );
}

#[test]
fn iteration_reflects_current_contents() {
    let mut j = Jots::new(DEFAULT_KDF_ID);
    j.insert(&s("b"), &s("2"));
    j.insert(&s("a"), &s("1"));
    assert_eq!(names_of(&j), vec![s("a"), s("b")]);
    j.remove(&s("a"));
    j.insert(&s("c"), &s("3"));
    assert_eq!(names_of(&j), vec![s("b"), s("c")]);
}

#[test]
fn iterator_ends_with_none() {
    let j = Jots::new(DEFAULT_KDF_ID);
    let mut it = JotsIter::new(&j);
    assert_eq!(it.next(), None);
    assert_eq!(it.next(), None);
}

#[test]
fn byte_round_trip_preserves_entries() {
    let mut j = Jots::new(DEFAULT_KDF_ID);
    j.insert(&s("naïve"), &s("héllo wörld"));
    j.insert(&s("plain"), &s("text with\nnewlines and \"quotes\""));
    j.insert(&s("emoji"), &s("🔑 secret"));
    let bytes = j.to_bytes().expect("serializes");
    let mut k = Jots::new(DEFAULT_KDF_ID);
    k.insert(&s("stale"), &s("gone after load"));
    k.from_bytes(&bytes).expect("parses");
    assert_eq!(k.len(), 3);
    assert_eq!(k.get(&s("naïve")), Some(s("héllo wörld")));
    assert_eq!(k.get(&s("plain")), Some(s("text with\nnewlines and \"quotes\"")));
    assert_eq!(k.get(&s("emoji")), Some(s("🔑 secret")));
    assert_eq!(k.get(&s("stale")), None);
}

#[test]
fn from_bytes_rejects_garbage_and_keeps_contents() {
    let mut j = Jots::new(DEFAULT_KDF_ID);
    j.insert(&s("keep"), &s("me"));
    j.mark_as_clean();
    let r = j.from_bytes(b"not a record stream");
    assert_eq!(r, Err(PwmanError::Format));
    assert_eq!(j.get(&s("keep")), Some(s("me")));
    assert!(!j.is_dirty());
}

#[test]
fn from_bytes_rejects_truncated_stream() {
    let mut j = Jots::new(DEFAULT_KDF_ID);
    j.insert(&s("a"), &s("1"));
    let mut bytes = j.to_bytes().expect("serializes");
    bytes.pop();
    let mut k = Jots::new(DEFAULT_KDF_ID);
    assert_eq!(k.from_bytes(&bytes), Err(PwmanError::Format));
}

#[test]
fn from_bytes_accepts_empty_stream() {
    let mut j = Jots::new(DEFAULT_KDF_ID);
    j.insert(&s("a"), &s("1"));
    j.from_bytes(b"").expect("an empty stream is an empty store");
    assert_eq!(j.len(), 0);
}

#[test]
fn new_id_builds_the_same_store() {
    let j = Jots::new_id(KdfId::Scrypt);
    assert_eq!(j.len(), 0);
    assert!(!j.is_dirty());
    assert_eq!(j.kdf_id, KdfId::Scrypt);
}

#[test]
fn record_framing_exact_bytes() {
    let mut j = Jots::new(DEFAULT_KDF_ID);
    j.insert(&s("a"), &s("b"));
    let bytes = j.to_bytes().expect("serializes");
    let mut expected: Vec<u8> = Vec::new();
    expected.extend_from_slice(b"Key");
    expected.extend_from_slice(&[1, 0, 0, 0]);
    expected.push(b'a');
    expected.extend_from_slice(b"Text");
    expected.extend_from_slice(&[1, 0, 0, 0]);
    expected.push(b'b');
    assert_eq!(bytes, expected);
}

#[test]
fn later_record_with_same_name_wins() {
    let mut first = Jots::new(DEFAULT_KDF_ID);
    first.insert(&s("k"), &s("1"));
    let mut second = Jots::new(DEFAULT_KDF_ID);
    second.insert(&s("k"), &s("2"));
    let mut stream = first.to_bytes().expect("serializes");
    stream.extend_from_slice(&second.to_bytes().expect("serializes"));
    let mut j = Jots::new(DEFAULT_KDF_ID);
    j.from_bytes(&stream).expect("parses");
    assert_eq!(j.len(), 1);
    assert_eq!(j.get(&s("k")), Some(s("2")));
}

#[test]
fn record_with_empty_name_is_rejected() {
    let mut stream: Vec<u8> = Vec::new();
    stream.extend_from_slice(b"Key");
    stream.extend_from_slice(&[0, 0, 0, 0]);
    stream.extend_from_slice(b"Text");
    stream.extend_from_slice(&[0, 0, 0, 0]);
    let mut j = Jots::new(DEFAULT_KDF_ID);
    assert_eq!(j.from_bytes(&stream), Err(PwmanError::Format));
}
