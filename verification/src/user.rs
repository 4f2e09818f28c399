//! The user data model. Instants (`created_at`, `updated_at`) are carried as
//! plain milliseconds since the Unix epoch.

use vstd::prelude::*;

verus! {

/// The full user row, password hash included.
#[derive(Debug, Clone)]
pub struct User {
    pub id: i32,
    pub name: String,
    pub email: String,
    pub password_hash: Option<String>,
    pub is_admin: bool,
    pub is_active: bool,
    pub created_at: Option<i64>,
    pub updated_at: Option<i64>,
}

/// The user as handed out to clients: everything but the password hash and
/// the update instant.
#[derive(Debug, Clone)]
pub struct PublicUser {
    pub id: i32,
    pub name: String,
    pub email: String,
    pub is_admin: bool,
    pub is_active: bool,
    pub created_at: Option<i64>,
}

/// What is asked of a new user.
#[derive(Debug)]
pub struct CreateUserRequest {
    pub name: String,
    pub email: String,
    pub password: String,
}

/// What may be changed on an existing user.
#[derive(Debug)]
pub struct UpdateUserRequest {
    pub name: Option<String>,
    pub email: Option<String>,
    pub password: Option<String>,
}

impl User {
    /// The public view of this user: the same fields, minus the sensitive
    /// ones.
    pub fn to_public(&self) -> (p: PublicUser)
        ensures
            p.id == self.id,
            p.name == self.name,
            p.email == self.email,
            p.is_admin == self.is_admin,
            p.is_active == self.is_active,
            p.created_at == self.created_at,
    {
        PublicUser {
            id: self.id,
            name: self.name.clone(),
            email: self.email.clone(),
            is_admin: self.is_admin,
            is_active: self.is_active,
            created_at: self.created_at,
        }
    }

    /// An administrator for access purposes: flagged as admin and still
    /// active.
    pub fn is_admin(&self) -> (r: bool)
        ensures
            r == (self.is_admin && self.is_active),
    {
        self.is_admin && self.is_active
    }

    /// Is the account active?
    pub fn is_active(&self) -> (r: bool)
        ensures
            r == self.is_active,
    {
        self.is_active
    }
}

} // verus!
