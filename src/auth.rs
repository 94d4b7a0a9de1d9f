use vstd::prelude::*;

use crate::user::User;

verus! {

/// Who is making a request: nobody known, someone who proved a contact
/// address but has not signed up yet, or a signed-up user.
#[derive(Debug)]
pub enum AuthTypes {
    UnAuthorized,
    AuthorizedNotSignedUp(Claims),
    AuthorizedUser(User),
}

impl AuthTypes {
    /// The signed-up user, if the request has one.
    pub fn as_authorized_user(&self) -> (r: Option<&User>)
        ensures
            r is Some <==> self is AuthorizedUser,
            r is Some ==> *r->0 == self->AuthorizedUser_0,
    {
        if let AuthTypes::AuthorizedUser(v) = self {
            Some(v)
        } else {
            None
        }
    }
}

/// What a token says about its holder. `exp` is the expiry, in seconds since
/// the Unix epoch.
#[derive(Debug)]
pub struct Claims {
    pub exp: usize,
    pub phone_number: Option<String>,
    pub email: Option<String>,
    pub user_id: Option<String>,
    pub token_type: TokenType,
}

/// The purpose of a token.
#[derive(Clone, Copy, Debug, PartialEq, Eq, Structural)]
pub enum TokenType {
    Access,
    Refresh,
    Signup,
}

impl TokenType {
    /// Whether this is an access token.
    pub fn is_access(&self) -> (r: bool)
        ensures
            r == (*self is Access),
    {
        matches!(self, TokenType::Access)
    }

    /// Whether this is a refresh token.
    pub fn is_refresh(&self) -> (r: bool)
        ensures
            r == (*self is Refresh),
    {
        matches!(self, TokenType::Refresh)
    }

    /// Whether this is a signup token.
    pub fn is_signup(&self) -> (r: bool)
        ensures
            r == (*self is Signup),
    {
        matches!(self, TokenType::Signup)
    }
}

/// The outcome of a login: a token to finish signing up with, or the tokens
/// of a signed-up user.
#[derive(Debug)]
pub enum AuthResult {
    UserNotSignedUp(UserNotSignedUp),
    UserSignedUp(UserSignedUp),
}

impl AuthResult {
    /// The tokens of a signed-up user, if that is the outcome.
    pub fn as_user_signed_up(&self) -> (r: Option<&UserSignedUp>)
        ensures
            r is Some <==> self is UserSignedUp,
            r is Some ==> *r->0 == self->UserSignedUp_0,
    {
        if let AuthResult::UserSignedUp(v) = self {
            Some(v)
        } else {
            None
        }
    }

    /// The tokens of a signed-up user, or the outcome itself otherwise.
    pub fn try_into_user_signed_up(self) -> (r: Result<UserSignedUp, AuthResult>)
        ensures
            r is Ok <==> self is UserSignedUp,
            r is Ok ==> r->Ok_0 == self->UserSignedUp_0,
            r is Err ==> r->Err_0 == self,
    {
        if let AuthResult::UserSignedUp(v) = self {
            Ok(v)
        } else {
            Err(self)
        }
    }
}

/// A token with which a new user finishes signing up.
#[derive(Debug)]
pub struct UserNotSignedUp {
    pub signup_token: String,
}

/// The access and refresh tokens of a signed-up user.
#[derive(Debug)]
pub struct UserSignedUp {
    pub access_token: String,
    pub refresh_token: String,
}

/// A new user together with their tokens.
#[derive(Debug)]
pub struct SignupSuccess {
    pub user: User,
    pub tokens: UserSignedUp,
}

} // verus!
