//! Registration: what is asked of a new account and what is answered.

use vstd::prelude::*;
use vstd::string::*;
use crate::error::AppError;
use crate::text::chars_of;

verus! {

#[derive(Debug, Clone)]
pub struct RegisterRequest {
    pub username: String,
    pub email: String,
    pub key_name: String,
}

#[derive(Debug, Clone)]
pub struct RegisterResponse {
    pub user_id: String,
    pub api_key: String,
    pub message: String,
}

/// The message with which a registration is refused, if it is: both user
/// name and e-mail address must be given, and the address holds an `@`.
pub open spec fn refusal_of(username: Seq<char>, email: Seq<char>) -> Option<Seq<char>> {
    if username.len() == 0 || email.len() == 0 {
        Some("Username and email are required"@)
    } else if !email.contains('@') {
        Some("Invalid email format"@)
    } else {
        None
    }
}

fn has_at_sign(text: &Vec<char>) -> (found: bool)
    ensures
        found == text@.contains('@'),
{
    let mut i: usize = 0;
    while i < text.len()
        invariant
            i <= text@.len(),
            forall|k: int| 0 <= k < i ==> text@[k] != '@',
        decreases text@.len() - i,
    {
        if text[i] == '@' {
            return true;
        }
        i += 1;
    }
    false
}

/// Checks a registration before anything is stored.
pub fn check_registration(req: &RegisterRequest) -> (r: Result<(), AppError>)
    ensures
        match refusal_of(req.username@, req.email@) {
            Some(text) => r matches Err(AppError::BadRequest(m)) && m@ == text,
            None => r is Ok,
        },
{
    if req.username.as_str().is_empty() || req.email.as_str().is_empty() {
        return Err(AppError::BadRequest(String::from_str("Username and email are required")));
    }
    let email = chars_of(req.email.as_str());
    if !has_at_sign(&email) {
        return Err(AppError::BadRequest(String::from_str("Invalid email format")));
    }
    Ok(())
}

/// The failure reported for a user name that is taken.
pub fn username_taken() -> (e: AppError)
    ensures
        e matches AppError::BadRequest(m) && m@ == "Username already exists"@,
{
    AppError::BadRequest(String::from_str("Username already exists"))
}

/// The answer to a registration that went through. It shows the API key,
/// which is not shown again.
pub fn register_response(user_id: String, api_key: String) -> (response: RegisterResponse)
    ensures
        response.user_id@ == user_id@,
        response.api_key@ == api_key@,
        response.message@ == "User created successfully. Save your API key: "@ + api_key@,
{
    let mut message = String::from_str("User created successfully. Save your API key: ");
    message.append(api_key.as_str());
    RegisterResponse { user_id, api_key, message }
}

} // verus!
