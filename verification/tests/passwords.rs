use wh_server::passwords::{hash_new, hash_old};

#[test]
fn test_match() {
    let password: String = String::from("test password");

    let (hash, salt) = hash_new(password.clone()).expect("error creating hash");

    let hash2 = hash_old(password, salt).expect("error creating hash");

    println!("{}\n{}", hash, hash2);

    assert_eq!(hash, hash2);
}

#[test]
fn hash_new_gives_fresh_b64_salt() {
    let (hash, salt) = hash_new(String::from("pw")).expect("hash");
    assert_eq!(salt.len(), 22);
    assert!(salt.chars().all(|c| c.is_ascii_alphanumeric() || c == '+' || c == '/'));
    assert!(hash.chars().all(|c| c.is_ascii_alphanumeric() || c == '+' || c == '/'));
    // 32 bytes of output in unpadded Base64
    assert_eq!(hash.len(), 43);
    let (_, salt2) = hash_new(String::from("pw")).expect("hash");
    assert_ne!(salt, salt2);
}

#[test]
fn hash_old_is_deterministic_and_depends_on_password() {
    let salt = String::from("c2FsdHNhbHRzYWx0c2FsdA");
    let a = hash_old(String::from("one"), salt.clone()).unwrap();
    let b = hash_old(String::from("one"), salt.clone()).unwrap();
    let c = hash_old(String::from("two"), salt.clone()).unwrap();
    assert_eq!(a, b);
    assert_ne!(a, c);
}

#[test]
fn hash_old_rejects_bad_salt() {
    let r = hash_old(String::from("pw"), String::from("abc"));
    assert_eq!(r.unwrap_err(), "Error recognizing salt | salt invalid: value to short");
    let r = hash_old(String::from("pw"), String::from("bad salt!"));
    assert_eq!(
        r.unwrap_err(),
        "Error recognizing salt | salt invalid: contains invalid character: ' '"
    );
    // 64 characters: accepted by Salt but not by SaltString
    let r = hash_old(String::from("pw"), "a".repeat(64));
    assert_eq!(r.unwrap_err(), "Error recognizing salt | salt invalid: value to long");
    let r = hash_old(String::from("pw"), "a".repeat(65));
    assert_eq!(r.unwrap_err(), "Error recognizing salt | salt invalid: value to long");
    // lengths count UTF-8 bytes: two characters, three bytes
    let r = hash_old(String::from("pw"), String::from("a\u{e9}"));
    assert_eq!(r.unwrap_err(), "Error recognizing salt | salt invalid: value to short");
    let r = hash_old(String::from("pw"), String::from("ab\u{e9}d"));
    assert_eq!(
        r.unwrap_err(),
        "Error recognizing salt | salt invalid: contains invalid character: '\u{e9}'"
    );
}

#[test]
fn hash_old_reports_hashing_error() {
    // a valid salt string that decodes to fewer than 8 bytes
    let r = hash_old(String::from("pw"), String::from("somesalt"));
    let m = r.unwrap_err();
    assert!(m.starts_with("Error hashing password | "), "{}", m);
}

#[test]
fn hash_old_accepts_63_character_salt() {
    let salt = "A".repeat(63);
    assert!(hash_old(String::from("pw"), salt).is_ok());
}
