use chrono::NaiveDateTime;
use vstd::prelude::*;

use crate::ids::{uuid_hyphenated, uuid_text};

verus! {

/// A user as the database stores it.
pub struct UserModel {
    pub id: u128,
    pub username: String,
    pub level: i32,
    pub xp: i32,
    pub email: String,
    pub created_at: NaiveDateTime,
}

/// The data required to create a user.
pub struct UserCreation {
    pub username: String,
    pub email: String,
}

/// A partial update of a user: each field that is present replaces the stored one.
pub struct UserUpdate {
    pub username: Option<String>,
    pub level: Option<i32>,
    pub xp: Option<i32>,
}

/// A user as handed to clients (without the email address).
pub struct UserResult {
    pub id: String,
    pub level: i32,
    pub xp: i32,
    pub username: String,
    pub created_at: NaiveDateTime,
}

impl UserModel {
    /// The user's identifier as text, as a session remembers it.
    pub fn id(&self) -> (res: String)
        ensures
            res@ == uuid_hyphenated(self.id),
    {
        uuid_text(self.id)
    }

    /// Converts the stored user into the result handed to clients.
    pub fn to_result(&self) -> (res: UserResult)
        ensures
            res.id@ == uuid_hyphenated(self.id),
            res.username == self.username,
            res.level == self.level,
            res.xp == self.xp,
            res.created_at == self.created_at,
    {
        UserResult {
            id: uuid_text(self.id),
            username: self.username.clone(),
            level: self.level,
            xp: self.xp,
            created_at: self.created_at,
        }
    }
}

} // verus!
