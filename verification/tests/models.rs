use canvas::auth::{DiscordCallbackQuery, DiscordUser, SignInAccount};
use canvas::error::{parse_id, require_found, DatabaseError};
use canvas::models::avatar::{AvatarCreation, AvatarModel, JsonValue};
use canvas::models::coins::PurchaseCoinsRequest;
use canvas::models::community::{
    CommunityCreation, CommunityMembershipResult, CommunityModel, MembershipCreation,
};
use canvas::models::pixel::{PixelCreation, PixelModel};
use canvas::models::user::UserModel;
use chrono::NaiveDateTime;

const ID_TEXT: &str = "550e8400-e29b-41d4-a716-446655440000";
const ID_VALUE: u128 = 0x550e8400_e29b_41d4_a716_446655440000;
const OTHER_TEXT: &str = "a1a2a3a4-b1b2-c1c2-d1d2-d3d4d5d6d7d8";
const OTHER_VALUE: u128 = 0xa1a2a3a4_b1b2_c1c2_d1d2_d3d4d5d6d7d8;

fn stamp() -> NaiveDateTime {
    NaiveDateTime::default()
}

#[test]
fn parse_id_accepts_hyphenated_and_simple() {
    assert_eq!(parse_id(ID_TEXT).unwrap(), ID_VALUE);
    assert_eq!(parse_id("550e8400e29b41d4a716446655440000").unwrap(), ID_VALUE);
    assert_eq!(parse_id("550E8400-E29B-41D4-A716-446655440000").unwrap(), ID_VALUE);
}

#[test]
fn parse_id_rejects_garbage() {
    assert!(matches!(parse_id("not-a-uuid"), Err(DatabaseError::UuidParseError(_))));
    assert!(matches!(parse_id(""), Err(DatabaseError::UuidParseError(_))));
}

#[test]
fn require_found_maps_missing_row() {
    assert_eq!(require_found(Some(5), "user").unwrap(), 5);
    assert!(matches!(require_found::<i32>(None, "user"), Err(DatabaseError::ModelNotFound("user"))));
}

#[test]
fn user_to_result_hides_email_and_formats_id() {
    let user = UserModel {
        id: ID_VALUE,
        username: "ada".to_string(),
        level: 3,
        xp: 120,
        email: "ada@example.com".to_string(),
        created_at: stamp(),
    };
    let res = user.to_result();
    assert_eq!(res.id, ID_TEXT);
    assert_eq!(res.username, "ada");
    assert_eq!((res.level, res.xp), (3, 120));
    assert_eq!(res.created_at, stamp());
    assert_eq!(user.id(), ID_TEXT);
    assert_eq!(parse_id(&user.id()).unwrap(), ID_VALUE);
}

#[test]
fn community_defaults() {
    let creation = CommunityCreation {
        owner_id: ID_TEXT.to_string(),
        name: "pond".to_string(),
        width: None,
        height: None,
        is_public: None,
        billing_plan: None,
    };
    let c = creation.prepare().unwrap();
    assert_eq!(c.owner_id, ID_VALUE);
    assert_eq!(c.name, "pond");
    assert_eq!((c.width, c.height), (512, 512));
    assert!(!c.is_public);
    assert_eq!(c.billing_plan, "free");
}

#[test]
fn community_given_values_kept() {
    let creation = CommunityCreation {
        owner_id: ID_TEXT.to_string(),
        name: "lake".to_string(),
        width: Some(64),
        height: Some(32),
        is_public: Some(true),
        billing_plan: Some("pro".to_string()),
    };
    let c = creation.prepare().unwrap();
    assert_eq!((c.width, c.height, c.is_public), (64, 32, true));
    assert_eq!(c.billing_plan, "pro");
}

#[test]
fn community_bad_owner() {
    let creation = CommunityCreation {
        owner_id: String::new(),
        name: "x".to_string(),
        width: None,
        height: None,
        is_public: None,
        billing_plan: None,
    };
    assert!(matches!(creation.prepare(), Err(DatabaseError::UuidParseError(_))));
}

#[test]
fn community_to_result() {
    let model = CommunityModel {
        id: ID_VALUE,
        owner_id: OTHER_VALUE,
        name: "pond".to_string(),
        width: 10,
        height: 20,
        is_public: true,
        billing_plan: "free".to_string(),
        created_at: stamp(),
    };
    let r = model.to_result();
    assert_eq!(r.id, ID_TEXT);
    assert_eq!(r.owner_id, OTHER_TEXT);
    assert_eq!((r.width, r.height, r.is_public), (10, 20, true));
    assert_eq!(r.name, "pond");
    assert_eq!(r.billing_plan, "free");
}

#[test]
fn membership_default_role_and_order_of_checks() {
    let m = MembershipCreation {
        community_id: ID_TEXT.to_string(),
        user_id: OTHER_TEXT.to_string(),
        role: None,
    }
    .prepare()
    .unwrap();
    assert_eq!((m.community_id, m.user_id), (ID_VALUE, OTHER_VALUE));
    assert_eq!(m.role, "member");
    let owner = MembershipCreation {
        community_id: ID_TEXT.to_string(),
        user_id: OTHER_TEXT.to_string(),
        role: Some("owner".to_string()),
    }
    .prepare()
    .unwrap();
    assert_eq!(owner.role, "owner");
    let bad = MembershipCreation {
        community_id: ID_TEXT.to_string(),
        user_id: "zz".to_string(),
        role: None,
    };
    assert!(matches!(bad.prepare(), Err(DatabaseError::UuidParseError(_))));
}

fn membership(role: &str) -> CommunityMembershipResult {
    CommunityMembershipResult {
        community_id: ID_TEXT.to_string(),
        user_id: OTHER_TEXT.to_string(),
        role: role.to_string(),
        joined_at: stamp(),
    }
}

#[test]
fn role_check_ignores_ascii_case() {
    assert!(CommunityMembershipResult::check_role(Some(membership("OWNER")), &["owner"]).is_ok());
    assert!(CommunityMembershipResult::check_role(Some(membership("Member")), &["owner", "member"])
        .is_ok());
}

#[test]
fn role_check_refusals_are_not_found() {
    let refused = CommunityMembershipResult::check_role(Some(membership("member")), &["owner"]);
    assert!(matches!(refused, Err(DatabaseError::ModelNotFound("membership"))));
    let missing = CommunityMembershipResult::check_role(None, &["owner", "member"]);
    assert!(matches!(missing, Err(DatabaseError::ModelNotFound("membership"))));
    let nothing = CommunityMembershipResult::check_role(Some(membership("owner")), &[]);
    assert!(nothing.is_err());
    let longer = CommunityMembershipResult::check_role(Some(membership("owners")), &["owner"]);
    assert!(longer.is_err());
    let non_ascii = CommunityMembershipResult::check_role(Some(membership("Ö")), &["ö"]);
    assert!(non_ascii.is_err());
}

#[test]
fn role_check_wider_list_accepts_more() {
    let m = || Some(membership("owner"));
    assert!(CommunityMembershipResult::check_role(m(), &["owner"]).is_ok());
    assert!(CommunityMembershipResult::check_role(m(), &["owner", "member"]).is_ok());
}

#[test]
fn pixel_placement_plan() {
    let creation = PixelCreation {
        pixels: vec![[1, 2, 0xFF0000], [3, 4, 0x00FF00], [5, 6, 7]],
        user_id: OTHER_TEXT.to_string(),
        community_id: Some(ID_TEXT.to_string()),
    };
    let plan = creation.prepare().unwrap();
    assert_eq!(plan.community_id, Some(ID_VALUE));
    assert_eq!(plan.user_id, OTHER_VALUE);
    let rows: Vec<(i32, i32, i32)> = plan.rows.iter().map(|r| (r.x, r.y, r.color)).collect();
    assert_eq!(rows, vec![(1, 2, 0xFF0000), (3, 4, 0x00FF00), (5, 6, 7)]);
    let reward = plan.reward.unwrap();
    assert_eq!(reward.amount, 3);
    assert_eq!(
        reward.reference.as_deref(),
        Some("Placed 3 pixels in community 550e8400-e29b-41d4-a716-446655440000")
    );
}

#[test]
fn pixel_placement_truncates_to_i32() {
    let creation = PixelCreation {
        pixels: vec![[(1i64 << 32) + 5, -1, (1i64 << 33) - 1]],
        user_id: OTHER_TEXT.to_string(),
        community_id: None,
    };
    let plan = creation.prepare().unwrap();
    assert_eq!((plan.rows[0].x, plan.rows[0].y, plan.rows[0].color), (5, -1, -1));
    let reward = plan.reward.unwrap();
    assert_eq!(reward.amount, 1);
    assert!(reward.reference.is_none());
    assert!(plan.community_id.is_none());
}

#[test]
fn pixel_placement_without_pixels_earns_nothing() {
    let creation = PixelCreation {
        pixels: vec![],
        user_id: OTHER_TEXT.to_string(),
        community_id: Some(ID_TEXT.to_string()),
    };
    let plan = creation.prepare().unwrap();
    assert!(plan.rows.is_empty());
    assert!(plan.reward.is_none());
}

#[test]
fn pixel_placement_bad_ids() {
    let bad_community = PixelCreation {
        pixels: vec![[0, 0, 0]],
        user_id: OTHER_TEXT.to_string(),
        community_id: Some("nope".to_string()),
    };
    assert!(matches!(bad_community.prepare(), Err(DatabaseError::UuidParseError(_))));
    let bad_user = PixelCreation {
        pixels: vec![[0, 0, 0]],
        user_id: "nope".to_string(),
        community_id: None,
    };
    assert!(matches!(bad_user.prepare(), Err(DatabaseError::UuidParseError(_))));
}

#[test]
fn pixel_to_result_formats_ids() {
    let model = PixelModel {
        community_id: Some(ID_VALUE),
        x: -4,
        y: 9,
        user_id: OTHER_VALUE,
        color: 0x123456,
        placed_at: stamp(),
    };
    let r = model.to_result();
    assert_eq!(r.community_id.as_deref(), Some(ID_TEXT));
    assert_eq!(r.user_id, OTHER_TEXT);
    assert_eq!((r.x, r.y, r.color), (-4, 9, 0x123456));
    let loose = PixelModel {
        community_id: None,
        x: 0,
        y: 0,
        user_id: 0,
        color: 0,
        placed_at: stamp(),
    };
    let r = loose.to_result();
    assert!(r.community_id.is_none());
    assert_eq!(r.user_id, "00000000-0000-0000-0000-000000000000");
}

fn pair(o: i64, c: i64) -> JsonValue {
    JsonValue::Array(vec![JsonValue::Integer(o), JsonValue::Integer(c)])
}

fn avatar(pixels: JsonValue) -> AvatarModel {
    AvatarModel { user_id: ID_VALUE, pixels, updated_at: stamp() }
}

#[test]
fn avatar_offsets_become_coordinates() {
    let a = avatar(JsonValue::Array(vec![pair(0, 1), pair(17, 2), pair(255, 3), pair(-1, 4), pair(-17, 5)]));
    let r = a.to_result();
    assert_eq!(r.user_id, ID_TEXT);
    assert_eq!(r.pixels, vec![[0, 0, 1], [1, 1, 2], [15, 15, 3], [-1, 0, 4], [-1, -1, 5]]);
    assert_eq!(r.updated_at, stamp());
}

#[test]
fn avatar_values_truncate_to_i32() {
    let a = avatar(JsonValue::Array(vec![pair((1i64 << 32) + 33, (1i64 << 32) + 7)]));
    assert_eq!(a.to_result().pixels, vec![[1, 2, 7]]);
}

#[test]
fn avatar_malformed_documents_give_no_pixels() {
    assert!(avatar(JsonValue::Other).to_result().pixels.is_empty());
    assert!(avatar(JsonValue::Integer(3)).to_result().pixels.is_empty());
    let short = JsonValue::Array(vec![pair(1, 1), JsonValue::Array(vec![JsonValue::Integer(1)])]);
    assert!(avatar(short).to_result().pixels.is_empty());
    let not_int = JsonValue::Array(vec![JsonValue::Array(vec![JsonValue::Integer(1), JsonValue::Other])]);
    assert!(avatar(not_int).to_result().pixels.is_empty());
    let flat = JsonValue::Array(vec![JsonValue::Integer(1)]);
    assert!(avatar(flat).to_result().pixels.is_empty());
    assert!(avatar(JsonValue::Array(vec![])).to_result().pixels.is_empty());
}

#[test]
fn avatar_write_then_read() {
    let creation = AvatarCreation {
        pixels: vec![[0, 7], [31, 8], [-20, 9], [i32::MAX, i32::MIN]],
        user_id: ID_TEXT.to_string(),
    };
    let stored = creation.prepare().unwrap();
    assert_eq!(stored.user_id, ID_VALUE);
    let back = avatar(stored.pixels).to_result();
    assert_eq!(
        back.pixels,
        vec![[0, 0, 7], [15, 1, 8], [-4, -1, 9], [i32::MAX % 16, i32::MAX / 16, i32::MIN]]
    );
}

#[test]
fn avatar_bad_owner() {
    let creation = AvatarCreation { pixels: vec![], user_id: "x".to_string() };
    assert!(matches!(creation.prepare(), Err(DatabaseError::UuidParseError(_))));
}

#[test]
fn purchase_requires_positive_coins() {
    let ok = PurchaseCoinsRequest { coins: 25, payment_reference: None };
    assert_eq!(ok.coins_to_credit().unwrap(), 25);
    for coins in [0, -1, i32::MIN] {
        let bad = PurchaseCoinsRequest { coins, payment_reference: Some("p".to_string()) };
        assert!(matches!(
            bad.coins_to_credit(),
            Err(DatabaseError::InvalidInput("coins must be greater than zero"))
        ));
    }
}

#[test]
fn oauth_state_must_match_cookie() {
    let q = DiscordCallbackQuery { code: "c".to_string(), state: "abc".to_string() };
    assert!(q.state_matches(Some("abc")));
    assert!(!q.state_matches(Some("abd")));
    assert!(!q.state_matches(Some("")));
    assert!(!q.state_matches(None));
}

#[test]
fn discord_email_fallback() {
    let with = DiscordUser {
        id: "42".to_string(),
        username: "n".to_string(),
        email: Some("n@example.com".to_string()),
    };
    assert_eq!(with.account_email(), "n@example.com");
    let without = DiscordUser { id: "42".to_string(), username: "n".to_string(), email: None };
    assert_eq!(without.account_email(), "42@discord");
}

#[test]
fn sign_in_keeps_existing_user_or_creates_one() {
    let reported = || DiscordUser { id: "7".to_string(), username: "kay".to_string(), email: None };
    let found = UserModel {
        id: ID_VALUE,
        username: "old".to_string(),
        level: 1,
        xp: 0,
        email: "7@discord".to_string(),
        created_at: stamp(),
    };
    match reported().sign_in_account(Some(found)) {
        SignInAccount::Existing(u) => assert_eq!((u.id, u.username.as_str()), (ID_VALUE, "old")),
        SignInAccount::Create(_) => panic!("an existing user must be kept"),
    }
    match reported().sign_in_account(None) {
        SignInAccount::Create(c) => {
            assert_eq!(c.username, "kay");
            assert_eq!(c.email, "7@discord");
        },
        SignInAccount::Existing(_) => panic!("no user was found"),
    }
}
