//! Password hashing with Argon2: a new hash with a fresh random salt, and
//! the hash of a password under a salt already stored.
use vstd::prelude::*;
use argon2::password_hash::rand_core::OsRng;
use argon2::password_hash::{PasswordHasher, SaltString};
use argon2::Argon2;
use crate::text::starts_with;
use vstd::utf8::encode_utf8;

verus! {

/// The salt type of the `password-hash` crate.
#[verifier::external_type_specification]
#[verifier::external_body]
pub struct ExSaltString(argon2::password_hash::SaltString);

/// The characters allowed in a PHC salt: `A-Z a-z 0-9 / + . -`.
pub open spec fn salt_char(c: char) -> bool {
    ('A' <= c && c <= 'Z') || ('a' <= c && c <= 'z') || ('0' <= c && c <= '9') || c == '/' || c
        == '+' || c == '.' || c == '-'
}

/// The characters of standard Base64: `A-Z a-z 0-9 + /`.
pub open spec fn b64_char(c: char) -> bool {
    ('A' <= c && c <= 'Z') || ('a' <= c && c <= 'z') || ('0' <= c && c <= '9') || c == '/' || c
        == '+'
}

/// A salt that `Salt::new` accepts: 4 to 64 allowed characters.
pub open spec fn salt_valid(s: Seq<char>) -> bool {
    &&& 4 <= s.len() <= 64
    &&& forall|i: int| 0 <= i < s.len() ==> #[trigger] salt_char(s[i])
}

/// A salt that `SaltString::new` accepts: as `Salt::new`, shorter than 64.
pub open spec fn salt_string_valid(s: Seq<char>) -> bool {
    salt_valid(s) && s.len() < 64
}

/// Whether every character of `s` is a Base64 character.
pub open spec fn all_b64(s: Seq<char>) -> bool {
    forall|i: int| 0 <= i < s.len() ==> #[trigger] b64_char(s[i])
}

/// The position of the first character of `s` outside the salt alphabet.
pub open spec fn first_bad_salt_char(s: Seq<char>) -> Option<int>
    decreases s.len(),
{
    if s.len() == 0 {
        None
    } else {
        match first_bad_salt_char(s.drop_last()) {
            Some(i) => Some(i),
            None => if salt_char(s.last()) {
                None
            } else {
                Some(s.len() - 1)
            },
        }
    }
}

/// The text of the error that `SaltString::new` gives for a salt it
/// refuses: its UTF-8 length is checked first (under 4 bytes, over 64),
/// then its characters; a salt of 64 allowed characters is too long for a
/// `SaltString`.
pub open spec fn salt_rejection(salt: Seq<char>) -> Seq<char> {
    let n = encode_utf8(salt).len();
    if n < 4 {
        "salt invalid: value to short"@
    } else if n > 64 {
        "salt invalid: value to long"@
    } else {
        match first_bad_salt_char(salt) {
            Some(i) => "salt invalid: contains invalid character: '"@ + seq![salt[i]] + "'"@,
            None => "salt invalid: value to long"@,
        }
    }
}

/// What `Argon2::default().hash_password` gives for `password` (its UTF-8
/// bytes) under the B64 salt `salt`: the Base64 text of the hash output, or
/// the text of the error where argon2 refuses the inputs.
pub uninterp spec fn argon2_phc_hash(password: Seq<char>, salt: Seq<char>) -> Result<
    Seq<char>,
    Seq<char>,
>;

/// The text of a hashing failure: it starts by saying whether the salt or
/// the hashing failed.
pub open spec fn hash_error_text(m: Seq<char>) -> bool {
    starts_with(m, "Error recognizing salt | "@) || starts_with(m, "Error hashing password | "@)
}

/// What `hash_old` gives: the hash under a salt that `SaltString::new`
/// accepts, else a message that says what failed, followed by the error's
/// text.
pub open spec fn hash_old_result(password: Seq<char>, salt: Seq<char>) -> Result<
    Seq<char>,
    Seq<char>,
> {
    if !salt_string_valid(salt) {
        Err("Error recognizing salt | "@ + salt_rejection(salt))
    } else {
        match argon2_phc_hash(password, salt) {
            Ok(h) => Ok(h),
            Err(t) => Err("Error hashing password | "@ + t),
        }
    }
}

/// The hash that `hash_old` gives: `None` where it fails.
pub open spec fn stored_hash(password: Seq<char>, salt: Seq<char>) -> Option<Seq<char>> {
    match hash_old_result(password, salt) {
        Ok(h) => Some(h),
        Err(_) => None,
    }
}

/// `SaltString::new`, with the error as its text. Trusted: it succeeds
/// exactly on the salts that `salt_string_valid` describes (4 to 63
/// characters of `A-Z a-z 0-9 / + . -`), and otherwise its error reads as
/// `salt_rejection` says.
#[verifier::external_body]
fn salt_string_new(s: &str) -> (r: Result<SaltString, String>)
    ensures
        r is Ok <==> salt_string_valid(s@),
        r matches Err(t) ==> t@ == salt_rejection(s@),
{
    match SaltString::new(s) {
        Ok(v) => Ok(v),
        Err(e) => Err(e.to_string()),
    }
}

/// `SaltString::generate(&mut OsRng)`: sixteen random bytes in B64, as text.
/// Trusted: the text is 22 Base64 characters (which ones is left to chance),
/// and argon2 hashes every password of at most `0xFFFF_FFFF` UTF-8 bytes
/// under it, and no longer one (such a salt decodes to 16 bytes, which
/// argon2 accepts; its only other check is the password's length).
#[verifier::external_body]
fn generate_salt() -> (s: String)
    ensures
        s@.len() == 22,
        all_b64(s@),
        forall|p: Seq<char>|
            #[trigger] argon2_phc_hash(p, s@) is Ok <==> encode_utf8(p).len() <= 0xFFFF_FFFF,
{
    SaltString::generate(&mut OsRng).as_str().to_string()
}

/// `Argon2::default().hash_password(password, salt)`, with the hash output
/// and the error as their text. Trusted: it fails on a salt that
/// `Salt::new` refuses; otherwise it gives `argon2_phc_hash`, always with a
/// hash output, whose text is 43 Base64 characters (the default 32-byte
/// output).
#[verifier::external_body]
fn argon2_hash_password(password: &str, salt: &str) -> (r: Result<Option<String>, String>)
    ensures
        !salt_valid(salt@) ==> r is Err,
        match argon2_phc_hash(password@, salt@) {
            Ok(h) => r matches Ok(Some(x)) && x@ == h,
            Err(t) => r matches Err(x) && x@ == t,
        },
        r matches Ok(Some(x)) ==> x@.len() == 43 && all_b64(x@),
{
    match Argon2::default().hash_password(password.as_bytes(), salt) {
        Ok(ph) => Ok(ph.hash.map(|h| h.to_string())),
        Err(e) => Err(e.to_string()),
    }
}

/// `prefix` followed by `text`.
fn error_message(prefix: &str, text: &String) -> (m: String)
    ensures
        m@ == prefix@ + text@,
{
    let mut m = String::from_str(prefix);
    m.append(text.as_str());
    m
}

/// The Argon2 hash of `password` under the stored salt `salt`
/// (see [`hash_old_result`]); the hash is 43 Base64 characters.
pub fn hash_old(password: String, salt: String) -> (r: Result<String, String>)
    ensures
        match hash_old_result(password@, salt@) {
            Ok(h) => r matches Ok(x) && x@ == h,
            Err(m) => r matches Err(x) && x@ == m,
        },
        r matches Ok(x) ==> x@.len() == 43 && all_b64(x@),
        r matches Err(m) ==> hash_error_text(m@),
{
    proof {
        reveal_strlit("Error recognizing salt | ");
        reveal_strlit("Error hashing password | ");
    }
    let _salt = match salt_string_new(salt.as_str()) {
        Ok(n) => n,
        Err(n) => {
            let m = error_message("Error recognizing salt | ", &n);
            assert(m@.subrange(0, 25) =~= "Error recognizing salt | "@);
            return Err(m);
        },
    };
    let password_hash = match argon2_hash_password(password.as_str(), salt.as_str()) {
        Ok(n) => n,
        Err(n) => {
            let m = error_message("Error hashing password | ", &n);
            assert(m@.subrange(0, 25) =~= "Error hashing password | "@);
            return Err(m);
        },
    };
    match password_hash {
        Some(n) => Ok(n),
        None => Err(String::from_str("Error getting hash from password")),
    }
}

/// What holds of a successful `hash_new`: the salt is a valid stored salt of
/// 22 Base64 characters and the hash, 43 Base64 characters, is Argon2's
/// hash under it.
pub open spec fn fresh_hash(password: Seq<char>, hash: Seq<char>, salt: Seq<char>) -> bool {
    &&& salt.len() == 22
    &&& all_b64(salt)
    &&& salt_string_valid(salt)
    &&& argon2_phc_hash(password, salt) == Ok::<Seq<char>, Seq<char>>(hash)
    &&& hash.len() == 43
    &&& all_b64(hash)
}

/// A character takes at most four bytes in UTF-8.
pub proof fn lemma_utf8_len_bound(s: Seq<char>)
    ensures
        encode_utf8(s).len() <= 4 * s.len(),
    decreases s.len(),
{
    if s.len() > 0 {
        lemma_utf8_len_bound(s.drop_first());
    }
}

/// A new hash of `password` under a fresh random salt: `Ok((hash, salt))`
/// exactly when the password has at most `0xFFFF_FFFF` UTF-8 bytes (so for
/// every password of fewer than `0x4000_0000` characters), else
/// "Error hashing password | " and argon2's error text.
pub fn hash_new(password: String) -> (r: Result<(String, String), String>)
    ensures
        r is Ok <==> encode_utf8(password@).len() <= 0xFFFF_FFFF,
        password@.len() < 0x4000_0000 ==> r is Ok,
        r matches Ok((h, s)) ==> fresh_hash(password@, h@, s@),
        r matches Err(m) ==> starts_with(m@, "Error hashing password | "@) && hash_error_text(m@),
{
    proof {
        reveal_strlit("Error hashing password | ");
        lemma_utf8_len_bound(password@);
    }
    let salt = generate_salt();
    proof {
        assert forall|i: int| 0 <= i < salt@.len() implies #[trigger] salt_char(salt@[i]) by {
            assert(b64_char(salt@[i]));
        }
        assert(argon2_phc_hash(password@, salt@) is Ok <==> encode_utf8(password@).len()
            <= 0xFFFF_FFFF);
    }
    let password_hash = match argon2_hash_password(password.as_str(), salt.as_str()) {
        Ok(n) => n,
        Err(n) => {
            let m = error_message("Error hashing password | ", &n);
            assert(m@.subrange(0, 25) =~= "Error hashing password | "@);
            return Err(m);
        },
    };
    match password_hash {
        Some(hash) => Ok((hash, salt)),
        None => Err(String::from_str("Error getting hash from password")),
    }
}

/// A hash made by `hash_new` is reproduced by `hash_old` from the same
/// password and the salt that `hash_new` returned.
pub proof fn lemma_hash_old_reproduces_hash_new(password: Seq<char>, hash: Seq<char>, salt: Seq<char>)
    requires
        fresh_hash(password, hash, salt),
    ensures
        stored_hash(password, salt) == Some(hash),
{
}

} // verus!
