use vstd::prelude::*;
use vstd::string::*;

use crate::models::user::{UserCreation, UserModel};

verus! {

/// What the sign-in provider sends back to the callback.
pub struct DiscordCallbackQuery {
    pub code: String,
    pub state: String,
}

/// The account that the sign-in provider reports.
pub struct DiscordUser {
    pub id: String,
    pub username: String,
    pub email: Option<String>,
}

/// The account that a sign-in ends on.
pub enum SignInAccount {
    /// The stored user known by the account's email address.
    Existing(UserModel),
    /// No user is known by that address: this user is to be created.
    Create(UserCreation),
}

/// The address an account is known by.
pub open spec fn account_email_text(u: DiscordUser) -> Seq<char> {
    match u.email {
        Some(e) => e@,
        None => u.id@ + "@discord"@,
    }
}

/// The address an account is known by is the reported email when there is
/// one, and otherwise the reported id followed by `@discord`; the username
/// never enters it, so two reports that agree on id and email give one address.
pub proof fn lemma_account_email(u: DiscordUser, v: DiscordUser)
    ensures
        u.email matches Some(e) ==> account_email_text(u) == e@,
        u.email is None ==> account_email_text(u) == u.id@ + "@discord"@,
        u.id@ == v.id@ && u.email == v.email ==> account_email_text(u) == account_email_text(v),
{
}

impl DiscordCallbackQuery {
    /// The callback is genuine only when the state cookie set at login is
    /// present and holds exactly the state that came back.
    pub fn state_matches(&self, cookie: Option<&str>) -> (res: bool)
        ensures
            res <==> (cookie matches Some(c) && c@ == self.state@),
    {
        match cookie {
            Some(c) => c.to_string() == self.state,
            None => false,
        }
    }
}

impl DiscordUser {
    /// The address an account is known by: the reported email, or
    /// `<id>@discord` when the provider reports none.
    pub fn account_email(&self) -> (res: String)
        ensures
            res@ == account_email_text(*self),
            self.email is None ==> res@ == self.id@ + "@discord"@,
            self.email matches Some(e) ==> res@ == e@,
    {
        match &self.email {
            Some(e) => e.clone(),
            None => {
                let mut text = self.id.clone();
                text.append("@discord");
                text
            },
        }
    }

    /// Decides the account a sign-in ends on, given the user that a lookup by
    /// `account_email` found: that user when there is one, otherwise a new
    /// user with the reported name and that address.
    pub fn sign_in_account(self, existing: Option<UserModel>) -> (res: SignInAccount)
        ensures
            match existing {
                Some(u) => res == SignInAccount::Existing(u),
                None => res matches SignInAccount::Create(c) && c.username == self.username
                    && c.email@ == account_email_text(self),
            },
            existing is None ==> (res matches SignInAccount::Create(c) && c.email@ == (
            match self.email {
                Some(e) => e@,
                None => self.id@ + "@discord"@,
            })),
    {
        match existing {
            Some(u) => SignInAccount::Existing(u),
            None => {
                let email = self.account_email();
                SignInAccount::Create(UserCreation { username: self.username, email })
            },
        }
    }
}

} // verus!
