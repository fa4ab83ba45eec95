//! API keys: how they are made, hashed, checked, and read from a request.

use vstd::prelude::*;
use vstd::slice::slice_subrange;
use vstd::string::*;
use argon2::password_hash::rand_core::OsRng;
use argon2::password_hash::{PasswordHash, PasswordHasher, PasswordVerifier, SaltString};
use argon2::Argon2;
use rand::Rng;
use crate::error::AppError;
use crate::text::{chars_of, has_prefix, push_char, starts_with, string_of};

verus! {

/// The error type of the password hashing crate.
#[verifier::external_type_specification]
#[verifier::external_body]
pub struct ExPasswordHashError(argon2::password_hash::Error);

// ---------------------------------------------------------------------------
// Making keys
// ---------------------------------------------------------------------------

/// The characters an API key is made of: the ASCII letters and digits.
pub open spec fn key_charset() -> Seq<char> {
    "ABCDEFGHIJKLMNOPQRSTUVWXYZabcdefghijklmnopqrstuvwxyz0123456789"@
}

pub open spec fn is_ascii_alphanumeric(c: char) -> bool {
    ('A' <= c <= 'Z') || ('a' <= c <= 'z') || ('0' <= c <= '9')
}

/// The key that a list of picks from the character set spells.
pub open spec fn key_of(picks: Seq<usize>) -> Seq<char> {
    Seq::new(picks.len(), |i: int| key_charset()[picks[i] as int])
}

/// The character set has 62 characters, all of them letters or digits.
pub proof fn lemma_key_charset()
    ensures
        key_charset().len() == 62,
        forall|i: int| 0 <= i < 62 ==> is_ascii_alphanumeric(#[trigger] key_charset()[i]),
{
    reveal_strlit("ABCDEFGHIJKLMNOPQRSTUVWXYZabcdefghijklmnopqrstuvwxyz0123456789");
}

/// `Rng::gen_range` of the crate `rand` on the thread-local generator, for
/// the range from 0 up to, not including, `n`: some number of that range.
/// The generator is seeded by the system and stops the program if that
/// fails.
#[verifier::external_body]
fn random_below(n: usize) -> (pick: usize)
    requires
        n > 0,
    ensures
        pick < n,
{
    rand::thread_rng().gen_range(0..n)
}

/// Spells the key for given picks from the character set.
pub fn key_from_picks(picks: &[usize]) -> (key: String)
    requires
        forall|i: int| 0 <= i < picks@.len() ==> #[trigger] picks@[i] < 62,
    ensures
        key@ == key_of(picks@),
        forall|i: int| 0 <= i < key@.len() ==> is_ascii_alphanumeric(#[trigger] key@[i]),
{
    let charset = chars_of("ABCDEFGHIJKLMNOPQRSTUVWXYZabcdefghijklmnopqrstuvwxyz0123456789");
    proof {
        lemma_key_charset();
    }
    let mut key = String::new();
    let mut i: usize = 0;
    while i < picks.len()
        invariant
            i <= picks@.len(),
            charset@ == key_charset(),
            charset@.len() == 62,
            forall|k: int| 0 <= k < picks@.len() ==> #[trigger] picks@[k] < 62,
            key@ == key_of(picks@.take(i as int)),
        decreases picks@.len() - i,
    {
        push_char(&mut key, charset[picks[i]]);
        i += 1;
        assert(key_of(picks@.take(i as int)) =~= key_of(picks@.take(i - 1)).push(
            key_charset()[picks@[i - 1] as int],
        ));
    }
    assert(picks@.take(picks@.len() as int) =~= picks@);
    proof {
        assert forall|k: int| 0 <= k < key@.len() implies is_ascii_alphanumeric(#[trigger] key@[k]) by {
            assert(key@[k] == key_charset()[picks@[k] as int]);
        }
    }
    key
}

/// Generate a new API key: 32 characters, each drawn at random from the
/// letters and digits.
pub fn generate_api_key() -> (key: String)
    ensures
        key@.len() == 32,
        forall|i: int| 0 <= i < 32 ==> is_ascii_alphanumeric(#[trigger] key@[i]),
{
    let mut picks: Vec<usize> = Vec::new();
    while picks.len() < 32
        invariant
            picks@.len() <= 32,
            forall|i: int| 0 <= i < picks@.len() ==> #[trigger] picks@[i] < 62,
        decreases 32 - picks@.len(),
    {
        picks.push(random_below(62));
    }
    key_from_picks(picks.as_slice())
}

// ---------------------------------------------------------------------------
// Hashing and checking keys
// ---------------------------------------------------------------------------

/// Whether `PasswordHash::new` takes the text for a hash in PHC notation.
pub uninterp spec fn phc_well_formed(hash: Seq<char>) -> bool;

/// Whether `PasswordVerifier::verify_password` of `Argon2::default()` finds
/// that the key gives the well-formed hash.
pub uninterp spec fn argon2_accepts(key: Seq<char>, hash: Seq<char>) -> bool;

/// `PasswordHasher::hash_password` of `Argon2::default()`, under a fresh
/// salt from `SaltString::generate`, written in PHC notation. The salt is
/// random, so the text is not told; whatever the salt, the text is a hash
/// that `PasswordHash::new` takes and against which `verify_password` finds
/// the same key good, as the crate's documentation shows. Whether hashing
/// succeeds is not told. The salt comes from the system's random source,
/// which stops the program if it fails.
#[verifier::external_body]
fn argon2_hash(key: &str) -> (r: Result<String, argon2::password_hash::Error>)
    ensures
        r matches Ok(hash) ==> phc_well_formed(hash@) && argon2_accepts(key@, hash@),
{
    let salt = SaltString::generate(&mut OsRng);
    Argon2::default().hash_password(key.as_bytes(), &salt).map(|h| h.to_string())
}

/// `PasswordHash::new` on the hash text, then `verify_password` of
/// `Argon2::default()` on the key: the error of the first where the text is
/// no hash, else whether the second succeeds. Both depend on the two texts
/// alone.
#[verifier::external_body]
fn argon2_verify(key: &str, hash: &str) -> (r: Result<bool, argon2::password_hash::Error>)
    ensures
        r is Ok <==> phc_well_formed(hash@),
        r matches Ok(accepted) ==> accepted == argon2_accepts(key@, hash@),
{
    let parsed = PasswordHash::new(hash)?;
    Ok(Argon2::default().verify_password(key.as_bytes(), &parsed).is_ok())
}

/// The `Display` text of a password hashing error.
#[verifier::external_body]
fn password_error_text(e: &argon2::password_hash::Error) -> String {
    e.to_string()
}

/// The failure reported when a key cannot be hashed.
pub fn hash_failure(detail: &str) -> (e: AppError)
    ensures
        e matches AppError::Internal(m) && m@ == "Failed to hash API key: "@ + detail@,
{
    let mut m = String::from_str("Failed to hash API key: ");
    m.append(detail);
    AppError::Internal(m)
}

/// The failure reported when a stored hash cannot be read.
pub fn format_failure(detail: &str) -> (e: AppError)
    ensures
        e matches AppError::Internal(m) && m@ == "Invalid hash format: "@ + detail@,
{
    let mut m = String::from_str("Invalid hash format: ");
    m.append(detail);
    AppError::Internal(m)
}

/// Hash an API key using Argon2 under a fresh salt.
///
/// The hash that is returned is one that `verify_api_key` reads and finds
/// this key good against. A failure of the hasher is reported as an internal
/// error whose message is `Failed to hash API key: ` and the hasher's own
/// words.
pub fn hash_api_key(key: &str) -> (r: Result<String, AppError>)
    ensures
        r matches Ok(hash) ==> phc_well_formed(hash@) && argon2_accepts(key@, hash@),
        r matches Err(e) ==> (e matches AppError::Internal(m) && has_prefix(
            m@,
            "Failed to hash API key: "@,
        )),
{
    match argon2_hash(key) {
        Ok(hash) => Ok(hash),
        Err(e) => {
            let detail = password_error_text(&e);
            let failure = hash_failure(detail.as_str());
            proof {
                let label = "Failed to hash API key: "@;
                assert((label + detail@).subrange(0, label.len() as int) =~= label);
            }
            Err(failure)
        },
    }
}

/// Verify an API key against a hash. A text that is no hash is reported as
/// an internal error whose message is `Invalid hash format: ` and the
/// reader's own words.
pub fn verify_api_key(key: &str, hash: &str) -> (r: Result<bool, AppError>)
    ensures
        r is Ok <==> phc_well_formed(hash@),
        r matches Ok(accepted) ==> accepted == argon2_accepts(key@, hash@),
        r matches Err(e) ==> (e matches AppError::Internal(m) && has_prefix(
            m@,
            "Invalid hash format: "@,
        )),
{
    match argon2_verify(key, hash) {
        Ok(accepted) => Ok(accepted),
        Err(e) => {
            let detail = password_error_text(&e);
            let failure = format_failure(detail.as_str());
            proof {
                let label = "Invalid hash format: "@;
                assert((label + detail@).subrange(0, label.len() as int) =~= label);
            }
            Err(failure)
        },
    }
}

/// What looking for a key among stored hashes gives, from hash `from` on:
/// the place of the first hash that the key is good against, if the hashes
/// before it are all well-formed; nothing if all are well-formed and none
/// takes the key. `None` if a hash that is not well-formed comes first.
pub open spec fn match_from(key: Seq<char>, hashes: Seq<Seq<char>>, from: int) -> Option<
    Option<int>,
>
    decreases hashes.len() - from,
{
    if from < 0 || from >= hashes.len() {
        Some(None)
    } else if !phc_well_formed(hashes[from]) {
        None
    } else if argon2_accepts(key, hashes[from]) {
        Some(Some(from))
    } else {
        match_from(key, hashes, from + 1)
    }
}

/// The texts of a list of strings.
pub open spec fn texts_of(list: Seq<String>) -> Seq<Seq<char>> {
    Seq::new(list.len(), |i: int| list[i]@)
}

/// Finds the stored hash that a presented key belongs to: the place of the
/// first hash, in the order given, that the key verifies against. A stored
/// text that is no hash, met before a match, is reported as an internal
/// error.
pub fn matching_key(key: &str, hashes: &[String]) -> (r: Result<Option<usize>, AppError>)
    ensures
        match match_from(key@, texts_of(hashes@), 0) {
            Some(Some(i)) => r matches Ok(Some(found)) && found == i,
            Some(None) => r matches Ok(None),
            None => r matches Err(AppError::Internal(m)) && has_prefix(
                m@,
                "Invalid hash format: "@,
            ),
        },
{
    let mut i: usize = 0;
    while i < hashes.len()
        invariant
            i <= hashes@.len(),
            match_from(key@, texts_of(hashes@), 0) == match_from(key@, texts_of(hashes@), i as int),
        decreases hashes@.len() - i,
    {
        assert(texts_of(hashes@)[i as int] == hashes@[i as int]@);
        match verify_api_key(key, hashes[i].as_str()) {
            Ok(true) => {
                return Ok(Some(i));
            },
            Ok(false) => {},
            Err(e) => {
                return Err(e);
            },
        }
        i += 1;
    }
    Ok(None)
}

// ---------------------------------------------------------------------------
// Reading the key from a request
// ---------------------------------------------------------------------------

/// The key that an `Authorization` header carries: what follows `Bearer `.
pub open spec fn bearer_of(header: Seq<char>) -> Option<Seq<char>> {
    if has_prefix(header, "Bearer "@) {
        Some(header.subrange("Bearer "@.len() as int, header.len() as int))
    } else {
        None
    }
}

/// Reads the API key from the value of the `Authorization` header, if the
/// request has one.
pub fn bearer_token(header: Option<&str>) -> (r: Result<String, AppError>)
    ensures
        match header {
            None => r matches Err(AppError::Auth(m)) && m@ == "Missing Authorization header"@,
            Some(h) => match bearer_of(h@) {
                Some(key) => r matches Ok(k) && k@ == key,
                None => r matches Err(AppError::Auth(m)) && m@
                    == "Invalid Authorization header format"@,
            },
        },
{
    let header = match header {
        Some(h) => h,
        None => {
            return Err(AppError::Auth(String::from_str("Missing Authorization header")));
        },
    };
    let text = chars_of(header);
    let prefix = chars_of("Bearer ");
    if !starts_with(text.as_slice(), prefix.as_slice()) {
        return Err(AppError::Auth(String::from_str("Invalid Authorization header format")));
    }
    Ok(string_of(slice_subrange(text.as_slice(), prefix.len(), text.len())))
}

} // verus!
