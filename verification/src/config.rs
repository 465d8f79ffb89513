//! Configuration shapes: OAuth provider descriptors, the authentication
//! configuration, the admin console gate, and subscription plan
//! descriptors as parsed from the environment.

use vstd::prelude::*;

use crate::quota::SubscriptionPlan;
use crate::strutil::{lower_of, to_lowercase, trim_of, trim_str};

verus! {

/// One OAuth provider, as configured.
#[derive(Debug)]
pub struct OAuthProviderConfig {
    pub name: String,
    pub authorize_url: String,
    pub token_url: String,
    pub userinfo_url: String,
    pub client_id: String,
    pub client_secret: String,
    pub scope: Option<String>,
    /// Dot-path of the user's unique identifier in the userinfo JSON.
    pub id_field: Option<String>,
    /// Field of the token response holding the access token.
    pub access_token_field: Option<String>,
    /// Extra query parameters for the authorize URL.
    pub extra_authorize_params: Option<Vec<(String, String)>>,
    /// Extra form parameters for the token request.
    pub extra_token_params: Option<Vec<(String, String)>>,
    /// Token endpoint client authentication method.
    pub token_auth_method: Option<String>,
}

/// The authentication configuration.
#[derive(Debug)]
pub struct AuthConfig {
    pub base_url: String,
    pub jwt_secret: String,
    pub jwt_issuer: String,
    pub token_pepper: String,
    pub app_redirect_allowlist: Vec<String>,
    pub access_token_ttl_secs: i64,
    pub refresh_token_ttl_secs: i64,
    pub login_attempt_ttl_secs: i64,
    pub ticket_ttl_secs: i64,
    pub enabled_providers: Vec<String>,
    pub providers: Vec<OAuthProviderConfig>,
}

/// The identity a request was authenticated as.
#[derive(Debug, Clone, Copy)]
pub struct AuthedUser {
    pub user_id: i64,
}

/// The admin console gate.
#[derive(Debug)]
pub struct AdminConfig {
    pub entry_path: String,
    pub username: Option<String>,
    pub password: Option<String>,
    pub session_ttl_secs: i64,
}

impl AdminConfig {
    /// The console is enabled only when both credentials are configured.
    pub fn enabled(&self) -> (r: bool)
        ensures
            r == (self.username is Some && self.password is Some),
    {
        self.username.is_some() && self.password.is_some()
    }
}

/// A plan descriptor as it appears in the configuration, before
/// validation.
#[derive(Debug)]
pub struct SubscriptionPlanConfig {
    pub id: String,
    pub name: String,
    pub duration_days: Option<i64>,
    pub duration_seconds: Option<i64>,
    pub duration_ms: Option<i64>,
    pub extra_storage_b64: Option<i64>,
    pub extra_outbound_bytes: Option<i64>,
}

/// Why a plan descriptor was rejected.
#[derive(Debug, Clone, Copy, PartialEq, Eq, Structural)]
pub enum PlanConfigError {
    MissingId,
    MissingName,
    MissingDuration,
}

/// Saturating multiplication on `i64`.
pub open spec fn sat_mul(a: i64, b: i64) -> i64 {
    if a * b > i64::MAX {
        i64::MAX
    } else if a * b < i64::MIN {
        i64::MIN
    } else {
        (a * b) as i64
    }
}

fn sat_mul_exec(a: i64, b: i64) -> (r: i64)
    ensures
        r == sat_mul(a, b),
{
    match a.checked_mul(b) {
        Some(v) => v,
        None => {
            proof {
                assert(((a > 0) == (b > 0)) ==> a * b >= 0) by (nonlinear_arith);
                assert((!((a > 0) == (b > 0))) ==> a * b <= 0) by (nonlinear_arith);
            }
            if (a > 0) == (b > 0) {
                i64::MAX
            } else {
                i64::MIN
            }
        },
    }
}

/// The duration a descriptor names: milliseconds first, then seconds,
/// then days, each converted saturating; 0 when none is given.
pub open spec fn spec_plan_duration_ms(cfg_ms: Option<i64>, cfg_secs: Option<i64>, cfg_days: Option<
    i64,
>) -> i64 {
    match cfg_ms {
        Some(v) => v,
        None => match cfg_secs {
            Some(v) => sat_mul(v, 1000),
            None => match cfg_days {
                Some(v) => sat_mul(v, 86400000),
                None => 0,
            },
        },
    }
}

impl SubscriptionPlan {
    /// Validate a configured descriptor: the id is trimmed and
    /// lowercased and must be non-empty, the name trimmed and non-empty,
    /// the duration positive; missing bonus values count as 0 and
    /// negative ones are clamped to 0.
    pub fn from_config(cfg: SubscriptionPlanConfig) -> (r: Result<SubscriptionPlan, PlanConfigError>)
        ensures
            trim_of(cfg.id@).len() == 0 ==> r == Result::<
                SubscriptionPlan,
                PlanConfigError,
            >::Err(PlanConfigError::MissingId),
            trim_of(cfg.id@).len() > 0 && trim_of(cfg.name@).len() == 0 ==> r
                == Result::<SubscriptionPlan, PlanConfigError>::Err(PlanConfigError::MissingName),
            trim_of(cfg.id@).len() > 0 && trim_of(cfg.name@).len() > 0
                && spec_plan_duration_ms(cfg.duration_ms, cfg.duration_seconds, cfg.duration_days)
                <= 0 ==> r == Result::<SubscriptionPlan, PlanConfigError>::Err(
                PlanConfigError::MissingDuration,
            ),
            trim_of(cfg.id@).len() > 0 && trim_of(cfg.name@).len() > 0
                && spec_plan_duration_ms(cfg.duration_ms, cfg.duration_seconds, cfg.duration_days)
                > 0 ==> r is Ok && r.unwrap()@ == (crate::quota::PlanView {
                id: lower_of(trim_of(cfg.id@)),
                name: trim_of(cfg.name@),
                duration_ms: spec_plan_duration_ms(
                    cfg.duration_ms,
                    cfg.duration_seconds,
                    cfg.duration_days,
                ),
                extra_storage_b64: match cfg.extra_storage_b64 {
                    Some(v) => if v >= 0 {
                        v
                    } else {
                        0
                    },
                    None => 0,
                },
                extra_outbound_bytes: match cfg.extra_outbound_bytes {
                    Some(v) => if v >= 0 {
                        v
                    } else {
                        0
                    },
                    None => 0,
                },
            }),
    {
        let id = to_lowercase(trim_str(cfg.id.as_str()));
        if id.as_str().unicode_len() == 0 {
            return Err(PlanConfigError::MissingId);
        }
        let name = trim_str(cfg.name.as_str()).to_owned();
        if name.as_str().unicode_len() == 0 {
            return Err(PlanConfigError::MissingName);
        }
        let duration_ms: i64 = match cfg.duration_ms {
            Some(v) => v,
            None => match cfg.duration_seconds {
                Some(v) => sat_mul_exec(v, 1000),
                None => match cfg.duration_days {
                    Some(v) => sat_mul_exec(v, 86400000),
                    None => 0,
                },
            },
        };
        if duration_ms <= 0 {
            return Err(PlanConfigError::MissingDuration);
        }
        let extra_storage_b64: i64 = match cfg.extra_storage_b64 {
            Some(v) => if v >= 0 {
                v
            } else {
                0
            },
            None => 0,
        };
        let extra_outbound_bytes: i64 = match cfg.extra_outbound_bytes {
            Some(v) => if v >= 0 {
                v
            } else {
                0
            },
            None => 0,
        };
        Ok(
            SubscriptionPlan {
                id,
                name,
                duration_ms,
                extra_storage_b64,
                extra_outbound_bytes,
            },
        )
    }
}

/// The subscription a redeemed activation code grants: rejected with
/// `conflict` while another subscription is active, otherwise it runs
/// from `now` for the plan's duration.
pub fn activate_subscription(
    user: &mut crate::store::UserAccount,
    plan: &SubscriptionPlan,
    now_ms: i64,
) -> (r: Result<i64, crate::push::ApiError>)
    ensures
        ({
            let active = (match old(user)@.expires_at {
                Some(e) => e > now_ms,
                None => false,
            }) && (match old(user)@.plan_id {
                Some(p) => trim_of(p).len() > 0,
                None => false,
            });
            if active {
                r == Result::<i64, crate::push::ApiError>::Err(
                    crate::push::ApiError::VersionConflict,
                ) && final(user)@ == old(user)@
            } else {
                let expires = crate::quota::sat_add(now_ms, plan@.duration_ms);
                r == Result::<i64, crate::push::ApiError>::Ok(expires) && final(user)@
                    == (crate::store::UserView {
                    plan_id: Some(plan@.id),
                    expires_at: Some(expires),
                    ..old(user)@
                })
            }
        }),
{
    let has_active = match user.subscription_expires_at_ms_utc {
        Some(e) => e > now_ms && (match user.subscription_plan_id {
            Some(ref p) => trim_str(p.as_str()).unicode_len() > 0,
            None => false,
        }),
        None => false,
    };
    if has_active {
        return Err(crate::push::ApiError::VersionConflict);
    }
    let expires = match now_ms.checked_add(plan.duration_ms) {
        Some(v) => v,
        None => if plan.duration_ms > 0 {
            i64::MAX
        } else {
            i64::MIN
        },
    };
    user.subscription_plan_id = Some(plan.id.clone());
    user.subscription_expires_at_ms_utc = Some(expires);
    Ok(expires)
}

} // verus!
