use chrono::NaiveDateTime;
use vstd::prelude::*;
use vstd::string::*;

use crate::error::{parse_id, DatabaseError, ModelResult};
use crate::ids::{uuid_from_text, uuid_hyphenated, uuid_text};
use crate::text::{eq_ignore_ascii_case, lemma_eq_ignore_ascii_case_equivalence, str_eq_ignore_ascii_case};

verus! {

/// Canvas width of a community created without one.
pub const DEFAULT_CANVAS_WIDTH: i32 = 512;

/// Canvas height of a community created without one.
pub const DEFAULT_CANVAS_HEIGHT: i32 = 512;

/// A community (a shared canvas) as the database stores it.
pub struct CommunityModel {
    pub id: u128,
    pub owner_id: u128,
    pub name: String,
    pub width: i32,
    pub height: i32,
    pub is_public: bool,
    pub billing_plan: String,
    pub created_at: NaiveDateTime,
}

/// The data required to create a community.
pub struct CommunityCreation {
    /// Identifier of the owner (as text).
    pub owner_id: String,
    pub name: String,
    pub width: Option<i32>,
    pub height: Option<i32>,
    pub is_public: Option<bool>,
    pub billing_plan: Option<String>,
}

/// A checked community creation, with every default filled in.
pub struct NewCommunity {
    pub owner_id: u128,
    pub name: String,
    pub width: i32,
    pub height: i32,
    pub is_public: bool,
    pub billing_plan: String,
}

/// A community as handed to clients.
pub struct CommunityResult {
    pub id: String,
    pub owner_id: String,
    pub name: String,
    pub width: i32,
    pub height: i32,
    pub is_public: bool,
    pub billing_plan: String,
    pub created_at: NaiveDateTime,
}

/// A user's membership in a community.
pub struct CommunityMembershipResult {
    pub community_id: String,
    pub user_id: String,
    pub role: String,
    pub joined_at: NaiveDateTime,
}

/// The data required to add a user to a community (or change their role).
pub struct MembershipCreation {
    pub community_id: String,
    pub user_id: String,
    pub role: Option<String>,
}

/// A checked membership, with the role filled in.
pub struct NewMembership {
    pub community_id: u128,
    pub user_id: u128,
    pub role: String,
}

/// `role` matches one of `expected`, ASCII letters compared without case.
pub open spec fn role_allowed(role: Seq<char>, expected: Seq<&str>) -> bool {
    exists|i: int| 0 <= i < expected.len() && eq_ignore_ascii_case(#[trigger] expected[i]@, role)
}

/// A membership lookup grants access under `expected`.
pub open spec fn membership_allowed(
    membership: Option<CommunityMembershipResult>,
    expected: Seq<&str>,
) -> bool {
    membership matches Some(m) && role_allowed(m.role@, expected)
}

/// Role checks ignore ASCII case: two roles that differ only in the case of
/// ASCII letters are granted exactly the same access.
pub proof fn lemma_role_check_ignores_case(r1: Seq<char>, r2: Seq<char>, expected: Seq<&str>)
    requires
        eq_ignore_ascii_case(r1, r2),
    ensures
        role_allowed(r1, expected) == role_allowed(r2, expected),
{
    if role_allowed(r1, expected) {
        let i = choose|i: int|
            0 <= i < expected.len() && eq_ignore_ascii_case(#[trigger] expected[i]@, r1);
        lemma_eq_ignore_ascii_case_equivalence(expected[i]@, r1, r2);
    }
    if role_allowed(r2, expected) {
        let i = choose|i: int|
            0 <= i < expected.len() && eq_ignore_ascii_case(#[trigger] expected[i]@, r2);
        lemma_eq_ignore_ascii_case_equivalence(r1, r2, r2);
        lemma_eq_ignore_ascii_case_equivalence(expected[i]@, r2, r1);
    }
}

/// A wider list of accepted roles never refuses a role that a narrower list
/// accepts: whoever passes the owner-only check passes the owner-or-member
/// check.
pub proof fn lemma_role_check_monotone(role: Seq<char>, narrow: Seq<&str>, wide: Seq<&str>)
    requires
        forall|i: int| 0 <= i < narrow.len() ==> wide.contains(#[trigger] narrow[i]),
        role_allowed(role, narrow),
    ensures
        role_allowed(role, wide),
{
    let i = choose|i: int| 0 <= i < narrow.len() && eq_ignore_ascii_case(#[trigger] narrow[i]@, role);
    assert(wide.contains(narrow[i]));
    let j = choose|j: int| 0 <= j < wide.len() && wide[j] == narrow[i];
    assert(eq_ignore_ascii_case(wide[j]@, role));
}

/// A membership is granted exactly when its role matches one of the expected
/// roles without regard to ASCII case; in particular a role listed exactly as
/// it is stored is always granted, and the decision depends on nothing but
/// the role and the list.
pub proof fn lemma_membership_allowed(
    m: CommunityMembershipResult,
    m2: CommunityMembershipResult,
    expected: Seq<&str>,
)
    ensures
        membership_allowed(Some(m), expected) <==> exists|i: int|
            0 <= i < expected.len() && eq_ignore_ascii_case(#[trigger] expected[i]@, m.role@),
        forall|i: int|
            0 <= i < expected.len() && #[trigger] expected[i]@ == m.role@ ==> membership_allowed(
                Some(m),
                expected,
            ),
        m2.role@ == m.role@ ==> membership_allowed(Some(m2), expected) == membership_allowed(
            Some(m),
            expected,
        ),
        !membership_allowed(None, expected),
{
    assert forall|i: int|
        0 <= i < expected.len() && #[trigger] expected[i]@ == m.role@ implies membership_allowed(
        Some(m),
        expected,
    ) by {
        lemma_eq_ignore_ascii_case_equivalence(m.role@, m.role@, m.role@);
        assert(eq_ignore_ascii_case(expected[i]@, m.role@));
    }
}

impl CommunityCreation {
    /// Checks a creation and fills in the defaults: a `512` by `512` canvas,
    /// not public, on the `free` plan.
    pub fn prepare(self) -> (res: ModelResult<NewCommunity>)
        ensures
            res is Ok <==> uuid_from_text(self.owner_id@) is Some,
            res matches Err(e) ==> e is UuidParseError,
            res matches Ok(c) ==> {
                &&& Some(c.owner_id) == uuid_from_text(self.owner_id@)
                &&& c.name == self.name
                &&& c.width == (match self.width {
                    Some(w) => w,
                    None => DEFAULT_CANVAS_WIDTH,
                })
                &&& c.height == (match self.height {
                    Some(h) => h,
                    None => DEFAULT_CANVAS_HEIGHT,
                })
                &&& c.is_public == (self.is_public == Some(true))
                &&& c.billing_plan@ == (match self.billing_plan {
                    Some(plan) => plan@,
                    None => "free"@,
                })
            },
    {
        let owner_id = match parse_id(self.owner_id.as_str()) {
            Ok(id) => id,
            Err(e) => {
                return Err(e);
            },
        };
        let width = match self.width {
            Some(w) => w,
            None => DEFAULT_CANVAS_WIDTH,
        };
        let height = match self.height {
            Some(h) => h,
            None => DEFAULT_CANVAS_HEIGHT,
        };
        let is_public = match self.is_public {
            Some(p) => p,
            None => false,
        };
        let billing_plan = match self.billing_plan {
            Some(plan) => plan,
            None => "free".to_string(),
        };
        Ok(NewCommunity { owner_id, name: self.name, width, height, is_public, billing_plan })
    }
}

impl CommunityModel {
    /// Converts the stored community into the result handed to clients.
    pub fn to_result(&self) -> (res: CommunityResult)
        ensures
            res.id@ == uuid_hyphenated(self.id),
            res.owner_id@ == uuid_hyphenated(self.owner_id),
            res.name == self.name,
            res.width == self.width,
            res.height == self.height,
            res.is_public == self.is_public,
            res.billing_plan == self.billing_plan,
            res.created_at == self.created_at,
    {
        CommunityResult {
            id: uuid_text(self.id),
            owner_id: uuid_text(self.owner_id),
            name: self.name.clone(),
            width: self.width,
            height: self.height,
            is_public: self.is_public,
            billing_plan: self.billing_plan.clone(),
            created_at: self.created_at,
        }
    }
}

impl MembershipCreation {
    /// Checks a membership: the community and then the user must be
    /// identifiers; the role is `member` unless one is given.
    pub fn prepare(self) -> (res: ModelResult<NewMembership>)
        ensures
            res is Ok <==> uuid_from_text(self.community_id@) is Some && uuid_from_text(
                self.user_id@,
            ) is Some,
            res matches Err(e) ==> e is UuidParseError,
            res matches Ok(m) ==> {
                &&& Some(m.community_id) == uuid_from_text(self.community_id@)
                &&& Some(m.user_id) == uuid_from_text(self.user_id@)
                &&& m.role@ == (match self.role {
                    Some(role) => role@,
                    None => "member"@,
                })
            },
    {
        let community_id = match parse_id(self.community_id.as_str()) {
            Ok(id) => id,
            Err(e) => {
                return Err(e);
            },
        };
        let user_id = match parse_id(self.user_id.as_str()) {
            Ok(id) => id,
            Err(e) => {
                return Err(e);
            },
        };
        let role = match self.role {
            Some(role) => role,
            None => "member".to_string(),
        };
        Ok(NewMembership { community_id, user_id, role })
    }
}

impl CommunityMembershipResult {
    /// Decides a role requirement on the membership that a lookup found: it
    /// is met when there is a membership whose role equals one of
    /// `expected_roles`, ASCII letters compared without case; otherwise the
    /// membership counts as not found.
    pub fn check_role(
        membership: Option<CommunityMembershipResult>,
        expected_roles: &[&str],
    ) -> (res: ModelResult<()>)
        ensures
            res is Ok <==> membership_allowed(membership, expected_roles@),
            res is Ok <==> (membership matches Some(m) && exists|i: int|
                0 <= i < expected_roles@.len() && eq_ignore_ascii_case(
                    #[trigger] expected_roles@[i]@,
                    m.role@,
                )),
            membership matches Some(m) ==> forall|i: int|
                0 <= i < expected_roles@.len() && #[trigger] expected_roles@[i]@ == m.role@
                    ==> res is Ok,
            res matches Err(e) ==> e matches DatabaseError::ModelNotFound(m) && m == "membership",
    {
        if let Some(member) = membership {
            let ghost found = member;
            let mut i: usize = 0;
            while i < expected_roles.len()
                invariant
                    membership == Some(found),
                    member == found,
                    i <= expected_roles@.len(),
                    forall|j: int|
                        0 <= j < i ==> !eq_ignore_ascii_case(
                            #[trigger] expected_roles@[j]@,
                            member.role@,
                        ),
                decreases expected_roles@.len() - i,
            {
                if str_eq_ignore_ascii_case(expected_roles[i], member.role.as_str()) {
                    assert(eq_ignore_ascii_case(expected_roles@[i as int]@, member.role@));
                    return Ok(());
                }
                i = i + 1;
            }
        }
        Err(DatabaseError::ModelNotFound("membership"))
    }
}

} // verus!
