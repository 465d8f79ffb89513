use sync_server::attach::parse_chunk_index;
use sync_server::config::activate_subscription;
use sync_server::push::ApiError;
use sync_server::config::{PlanConfigError, SubscriptionPlanConfig};
use sync_server::hlc::{hlc_is_newer, Hlc};
use sync_server::quota::{compute_effective_quota, BillingConfig, SubscriptionPlan};
use sync_server::store::UserAccount;
use sync_server::strutil::{starts_with, str_eq, trim_str};
use sync_server::textutil::{
    cookie_secure_flag, escape_like_prefix, hex_encode, html_escape, is_attachment_staged_type,
    normalize_path_prefix, normalize_plan_id, unquote_env_json,
};

fn hlc(w: i64, c: i64, d: &str) -> Hlc {
    Hlc { wall_time_ms_utc: w, counter: c, device_id: d.to_string() }
}

#[test]
fn hlc_order_is_lexicographic() {
    assert!(hlc_is_newer(&hlc(2, 0, "A"), &hlc(1, 9, "Z")));
    assert!(hlc_is_newer(&hlc(1, 1, "A"), &hlc(1, 0, "Z")));
    assert!(hlc_is_newer(&hlc(1, 0, "B"), &hlc(1, 0, "A")));
    assert!(!hlc_is_newer(&hlc(1, 0, "A"), &hlc(1, 0, "A")));
    assert!(!hlc_is_newer(&hlc(1, 0, "A"), &hlc(1, 0, "B")));
    // Byte-lexicographic device comparison: a longer string with an equal
    // prefix is newer.
    assert!(hlc_is_newer(&hlc(1, 0, "AB"), &hlc(1, 0, "A")));
}

#[test]
fn chunk_index_parsing() {
    assert_eq!(parse_chunk_index("a1:0"), Some(0));
    assert_eq!(parse_chunk_index("a1:17"), Some(17));
    assert_eq!(parse_chunk_index("a:b:3"), Some(3));
    assert_eq!(parse_chunk_index("a1"), None);
    assert_eq!(parse_chunk_index("a1:"), None);
    assert_eq!(parse_chunk_index("a1:x"), None);
    assert_eq!(parse_chunk_index("a1:1x"), None);
    assert_eq!(parse_chunk_index("a1:99999999999999999999999"), None);
}

#[test]
fn staged_type_classification() {
    assert!(is_attachment_staged_type("todo_attachment"));
    assert!(is_attachment_staged_type("todo_attachment_chunk"));
    assert!(!is_attachment_staged_type("todo_attachment_commit"));
    assert!(!is_attachment_staged_type("todo"));
}

#[test]
fn string_helpers() {
    assert_eq!(trim_str("  a b  "), "a b");
    assert_eq!(trim_str("\t\n"), "");
    assert!(starts_with("abc:0", "abc:"));
    assert!(!starts_with("ab", "abc"));
    assert!(str_eq("same", "same"));
    assert!(!str_eq("same", "Same"));
}

#[test]
fn escaping_helpers() {
    assert_eq!(hex_encode(&[0x00, 0xff, 0x1a]), "00ff1a");
    assert_eq!(hex_encode(&[]), "");
    assert_eq!(html_escape("a<b>&\"'"), "a&lt;b&gt;&amp;&quot;&#x27;");
    assert_eq!(escape_like_prefix("a%b_c\\d"), "a\\%b\\_c\\\\d");
    assert_eq!(escape_like_prefix("plain"), "plain");
}

#[test]
fn config_normalizers() {
    assert_eq!(normalize_path_prefix("  "), "/admin");
    assert_eq!(normalize_path_prefix("admin2"), "/admin2");
    assert_eq!(normalize_path_prefix("/x///"), "/x");
    assert_eq!(normalize_path_prefix("/"), "/");
    assert_eq!(unquote_env_json(" '[1]' "), "[1]");
    assert_eq!(unquote_env_json("\"[]\""), "[]");
    assert_eq!(unquote_env_json("plain"), "plain");
    assert_eq!(normalize_plan_id("  Pro "), Some("pro".to_string()));
    assert_eq!(normalize_plan_id("   "), None);
    assert!(cookie_secure_flag(" HTTPS://x.example"));
    assert!(!cookie_secure_flag("http://x.example"));
}

#[test]
fn plan_from_config_validation() {
    let ok = SubscriptionPlan::from_config(SubscriptionPlanConfig {
        id: " Pro ".to_string(),
        name: " Pro Plan ".to_string(),
        duration_days: Some(30),
        duration_seconds: None,
        duration_ms: None,
        extra_storage_b64: Some(-5),
        extra_outbound_bytes: Some(7),
    })
    .expect("plan");
    assert_eq!(ok.id, "pro");
    assert_eq!(ok.name, "Pro Plan");
    assert_eq!(ok.duration_ms, 30 * 86_400_000);
    assert_eq!(ok.extra_storage_b64, 0);
    assert_eq!(ok.extra_outbound_bytes, 7);

    let e = SubscriptionPlan::from_config(SubscriptionPlanConfig {
        id: "  ".to_string(),
        name: "n".to_string(),
        duration_days: Some(1),
        duration_seconds: None,
        duration_ms: None,
        extra_storage_b64: None,
        extra_outbound_bytes: None,
    });
    assert_eq!(e.err(), Some(PlanConfigError::MissingId));

    let e = SubscriptionPlan::from_config(SubscriptionPlanConfig {
        id: "x".to_string(),
        name: "x".to_string(),
        duration_days: None,
        duration_seconds: None,
        duration_ms: None,
        extra_storage_b64: None,
        extra_outbound_bytes: None,
    });
    assert_eq!(e.err(), Some(PlanConfigError::MissingDuration));
}

#[test]
fn effective_quota_with_active_plan() {
    let billing = BillingConfig {
        default_base_storage_b64: Some(100),
        default_base_outbound_bytes: None,
        plans: vec![SubscriptionPlan {
            id: "pro".to_string(),
            name: "Pro".to_string(),
            duration_ms: 1000,
            extra_storage_b64: 50,
            extra_outbound_bytes: 25,
        }],
    };
    let mut user = UserAccount::new();
    user.subscription_plan_id = Some(" PRO ".to_string());
    user.subscription_expires_at_ms_utc = Some(2000);

    // Active subscription: bonuses apply, outbound stays unlimited.
    let q = compute_effective_quota(&billing, &user, 1000);
    assert_eq!(q.allowed_storage_b64, Some(150));
    assert_eq!(q.allowed_outbound_bytes, None);
    assert_eq!(q.active_plan_id.as_deref(), Some("pro"));
    assert_eq!(q.active_plan_expires_at_ms_utc, Some(2000));

    // Expired subscription: base values only.
    let q = compute_effective_quota(&billing, &user, 3000);
    assert_eq!(q.allowed_storage_b64, Some(100));
    assert_eq!(q.active_plan_id, None);

    // A negative user override means unlimited.
    user.base_storage_b64 = Some(-1);
    let q = compute_effective_quota(&billing, &user, 3000);
    assert_eq!(q.allowed_storage_b64, None);
}

#[test]
fn stale_subscription_is_cleared_in_place() {
    let mut user = UserAccount::new();
    user.subscription_plan_id = Some("pro".to_string());
    user.subscription_expires_at_ms_utc = Some(10);
    assert!(user.clear_subscription_if_expired(10));
    assert_eq!(user.subscription_plan_id, None);
    assert_eq!(user.subscription_expires_at_ms_utc, None);
    // Clearing again is a no-op.
    assert!(!user.clear_subscription_if_expired(10));

    let mut active = UserAccount::new();
    active.subscription_plan_id = Some("pro".to_string());
    active.subscription_expires_at_ms_utc = Some(100);
    assert!(!active.clear_subscription_if_expired(10));
    assert_eq!(active.subscription_plan_id, Some("pro".to_string()));
}

#[test]
fn subscription_activation_conflicts_while_active() {
    let plan = SubscriptionPlan {
        id: "pro".to_string(),
        name: "Pro".to_string(),
        duration_ms: 1000,
        extra_storage_b64: 0,
        extra_outbound_bytes: 0,
    };
    let mut user = UserAccount::new();
    assert_eq!(activate_subscription(&mut user, &plan, 500), Ok(1500));
    assert_eq!(user.subscription_plan_id.as_deref(), Some("pro"));
    assert_eq!(
        activate_subscription(&mut user, &plan, 600),
        Err(ApiError::VersionConflict)
    );
    // After expiry a new activation succeeds.
    assert_eq!(activate_subscription(&mut user, &plan, 2000), Ok(3000));
}
