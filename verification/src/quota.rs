//! Quota evaluation: effective storage and outbound allowances from the
//! user's base values plus any active subscription plan, lazy clearing of
//! expired subscriptions, and the monthly outbound counter reset.

use vstd::prelude::*;

use crate::dates::{month_utc_from_unix_ms, spec_month_utc};
use crate::store::{UserAccount, UserView};
use crate::strutil::{lower_of, to_lowercase, trim_of, trim_str};

verus! {

/// A subscription plan: extra allowances granted while it is active.
#[derive(Debug)]
pub struct SubscriptionPlan {
    pub id: String,
    pub name: String,
    pub duration_ms: i64,
    pub extra_storage_b64: i64,
    pub extra_outbound_bytes: i64,
}

/// Mathematical value of a subscription plan.
#[verifier::ext_equal]
pub ghost struct PlanView {
    pub id: Seq<char>,
    pub name: Seq<char>,
    pub duration_ms: i64,
    pub extra_storage_b64: i64,
    pub extra_outbound_bytes: i64,
}

impl View for SubscriptionPlan {
    type V = PlanView;

    open spec fn view(&self) -> PlanView {
        PlanView {
            id: self.id@,
            name: self.name@,
            duration_ms: self.duration_ms,
            extra_storage_b64: self.extra_storage_b64,
            extra_outbound_bytes: self.extra_outbound_bytes,
        }
    }
}

/// Billing defaults and the configured subscription plans.
#[derive(Debug)]
pub struct BillingConfig {
    pub default_base_storage_b64: Option<i64>,
    pub default_base_outbound_bytes: Option<i64>,
    pub plans: Vec<SubscriptionPlan>,
}

/// Mathematical value of the billing configuration.
#[verifier::ext_equal]
pub ghost struct BillingView {
    pub default_base_storage_b64: Option<i64>,
    pub default_base_outbound_bytes: Option<i64>,
    pub plans: Seq<PlanView>,
}

impl View for BillingConfig {
    type V = BillingView;

    open spec fn view(&self) -> BillingView {
        BillingView {
            default_base_storage_b64: self.default_base_storage_b64,
            default_base_outbound_bytes: self.default_base_outbound_bytes,
            plans: self.plans@.map_values(|p: SubscriptionPlan| p@),
        }
    }
}

/// The quota in force for one request.
#[derive(Debug)]
pub struct EffectiveQuota {
    pub base_storage_b64: Option<i64>,
    pub base_outbound_bytes: Option<i64>,
    pub bonus_storage_b64: i64,
    pub bonus_outbound_bytes: i64,
    pub allowed_storage_b64: Option<i64>,
    pub allowed_outbound_bytes: Option<i64>,
    pub active_plan_id: Option<String>,
    pub active_plan_name: Option<String>,
    pub active_plan_expires_at_ms_utc: Option<i64>,
}

/// Mathematical value of an effective quota.
#[verifier::ext_equal]
pub ghost struct QuotaView {
    pub base_storage_b64: Option<i64>,
    pub base_outbound_bytes: Option<i64>,
    pub bonus_storage_b64: i64,
    pub bonus_outbound_bytes: i64,
    pub allowed_storage_b64: Option<i64>,
    pub allowed_outbound_bytes: Option<i64>,
    pub active_plan_id: Option<Seq<char>>,
    pub active_plan_name: Option<Seq<char>>,
    pub active_plan_expires_at: Option<i64>,
}

impl View for EffectiveQuota {
    type V = QuotaView;

    open spec fn view(&self) -> QuotaView {
        QuotaView {
            base_storage_b64: self.base_storage_b64,
            base_outbound_bytes: self.base_outbound_bytes,
            bonus_storage_b64: self.bonus_storage_b64,
            bonus_outbound_bytes: self.bonus_outbound_bytes,
            allowed_storage_b64: self.allowed_storage_b64,
            allowed_outbound_bytes: self.allowed_outbound_bytes,
            active_plan_id: match self.active_plan_id {
                Some(ref s) => Some(s@),
                None => None,
            },
            active_plan_name: match self.active_plan_name {
                Some(ref s) => Some(s@),
                None => None,
            },
            active_plan_expires_at: self.active_plan_expires_at_ms_utc,
        }
    }
}

/// Saturating addition on `i64`.
pub open spec fn sat_add(a: i64, b: i64) -> i64 {
    if a + b > i64::MAX {
        i64::MAX
    } else if a + b < i64::MIN {
        i64::MIN
    } else {
        (a + b) as i64
    }
}

/// A non-negative base value, taking the user's override when present,
/// else the configured default, and treating negative values as unset.
pub open spec fn spec_base_value(user_value: Option<i64>, default_value: Option<i64>) -> Option<
    i64,
> {
    let v = if user_value is Some {
        user_value
    } else {
        default_value
    };
    match v {
        Some(x) => if x >= 0 {
            Some(x)
        } else {
            None
        },
        None => None,
    }
}

/// The normalized plan id named by the user row, when one is named:
/// the trimmed, lowercased id, absent when nothing is left after
/// trimming.
pub open spec fn spec_user_plan_id(user: UserView) -> Option<Seq<char>> {
    match user.plan_id {
        Some(s) => {
            if trim_of(s).len() > 0 {
                Some(lower_of(trim_of(s)))
            } else {
                None
            }
        },
        None => None,
    }
}

/// Index of the plan with this id, if any.
pub open spec fn find_plan(plans: Seq<PlanView>, id: Seq<char>) -> Option<int> {
    find_plan_from(plans, id, 0)
}

pub open spec fn find_plan_from(plans: Seq<PlanView>, id: Seq<char>, i: int) -> Option<int>
    decreases plans.len() - i,
{
    if i < 0 || i >= plans.len() {
        None
    } else if plans[i].id == id {
        Some(i)
    } else {
        find_plan_from(plans, id, i + 1)
    }
}

/// The active plan granting bonuses now: the user's subscription must not
/// be expired, name a non-empty plan id, and that id must be configured.
pub open spec fn spec_active_plan(billing: BillingView, user: UserView, now: i64) -> Option<int> {
    let expires = match user.expires_at {
        Some(e) => e,
        None => 0,
    };
    if expires > now {
        match spec_user_plan_id(user) {
            Some(id) => find_plan(billing.plans, id),
            None => None,
        }
    } else {
        None
    }
}

/// The quota in force: base values plus the active plan's bonuses, with
/// saturating addition; a missing base means unlimited.
pub open spec fn spec_effective_quota(billing: BillingView, user: UserView, now: i64) -> QuotaView {
    let base_storage = spec_base_value(user.base_storage_b64, billing.default_base_storage_b64);
    let base_outbound = spec_base_value(
        user.base_outbound_bytes,
        billing.default_base_outbound_bytes,
    );
    let (bonus_s, bonus_o, pid, pname) = match spec_active_plan(billing, user, now) {
        Some(i) => {
            let p = billing.plans[i];
            (
                if p.extra_storage_b64 >= 0 {
                    p.extra_storage_b64
                } else {
                    0
                },
                if p.extra_outbound_bytes >= 0 {
                    p.extra_outbound_bytes
                } else {
                    0
                },
                Some(p.id),
                Some(p.name),
            )
        },
        None => (0, 0, None, None),
    };
    QuotaView {
        base_storage_b64: base_storage,
        base_outbound_bytes: base_outbound,
        bonus_storage_b64: bonus_s,
        bonus_outbound_bytes: bonus_o,
        allowed_storage_b64: match base_storage {
            Some(v) => Some(sat_add(v, bonus_s)),
            None => None,
        },
        allowed_outbound_bytes: match base_outbound {
            Some(v) => Some(sat_add(v, bonus_o)),
            None => None,
        },
        active_plan_id: pid,
        active_plan_name: pname,
        active_plan_expires_at: match user.expires_at {
            Some(e) => if e > now {
                Some(e)
            } else {
                None
            },
            None => None,
        },
    }
}

fn base_value(user_value: Option<i64>, default_value: Option<i64>) -> (r: Option<i64>)
    ensures
        r == spec_base_value(user_value, default_value),
{
    let v = match user_value {
        Some(x) => Some(x),
        None => default_value,
    };
    match v {
        Some(x) => if x >= 0 {
            Some(x)
        } else {
            None
        },
        None => None,
    }
}

fn sat_add_exec(a: i64, b: i64) -> (r: i64)
    ensures
        r == sat_add(a, b),
{
    match a.checked_add(b) {
        Some(v) => v,
        None => if b > 0 {
            i64::MAX
        } else {
            i64::MIN
        },
    }
}

/// Compute the quota in force for a user at `now_ms`.
pub fn compute_effective_quota(billing: &BillingConfig, user: &UserAccount, now_ms: i64) -> (r:
    EffectiveQuota)
    ensures
        r@ == spec_effective_quota(billing@, user@, now_ms),
{
    let base_storage_b64 = base_value(user.base_storage_b64, billing.default_base_storage_b64);
    let base_outbound_bytes = base_value(
        user.base_outbound_bytes,
        billing.default_base_outbound_bytes,
    );
    let expires_at: i64 = match user.subscription_expires_at_ms_utc {
        Some(e) => e,
        None => 0,
    };
    let mut bonus_storage_b64: i64 = 0;
    let mut bonus_outbound_bytes: i64 = 0;
    let mut active_plan_id: Option<String> = None;
    let mut active_plan_name: Option<String> = None;
    if expires_at > now_ms {
        let norm: Option<String> = match user.subscription_plan_id {
            Some(ref s) => {
                let t = to_lowercase(trim_str(s.as_str()));
                if t.as_str().unicode_len() > 0 {
                    Some(t)
                } else {
                    None
                }
            },
            None => None,
        };
        match norm {
            Some(id) => {
                let idx = find_plan_exec(&billing.plans, &id);
                match idx {
                    Some(i) => {
                        let p = &billing.plans[i];
                        bonus_storage_b64 = if p.extra_storage_b64 >= 0 {
                            p.extra_storage_b64
                        } else {
                            0
                        };
                        bonus_outbound_bytes = if p.extra_outbound_bytes >= 0 {
                            p.extra_outbound_bytes
                        } else {
                            0
                        };
                        active_plan_id = Some(p.id.clone());
                        active_plan_name = Some(p.name.clone());
                    },
                    None => {},
                }
            },
            None => {},
        }
    }
    let allowed_storage_b64 = match base_storage_b64 {
        Some(v) => Some(sat_add_exec(v, bonus_storage_b64)),
        None => None,
    };
    let allowed_outbound_bytes = match base_outbound_bytes {
        Some(v) => Some(sat_add_exec(v, bonus_outbound_bytes)),
        None => None,
    };
    let active_plan_expires_at_ms_utc = match user.subscription_expires_at_ms_utc {
        Some(e) => if e > now_ms {
            Some(e)
        } else {
            None
        },
        None => None,
    };
    EffectiveQuota {
        base_storage_b64,
        base_outbound_bytes,
        bonus_storage_b64,
        bonus_outbound_bytes,
        allowed_storage_b64,
        allowed_outbound_bytes,
        active_plan_id,
        active_plan_name,
        active_plan_expires_at_ms_utc,
    }
}

fn find_plan_exec(plans: &Vec<SubscriptionPlan>, id: &String) -> (r: Option<usize>)
    ensures
        match r {
            Some(i) => find_plan(plans@.map_values(|p: SubscriptionPlan| p@), id@) == Some(
                i as int,
            ) && i < plans@.len(),
            None => find_plan(plans@.map_values(|p: SubscriptionPlan| p@), id@) is None,
        },
{
    let ghost pv = plans@.map_values(|p: SubscriptionPlan| p@);
    let n = plans.len();
    let mut i: usize = 0;
    while i < n
        invariant
            0 <= i <= n,
            n == plans@.len(),
            pv == plans@.map_values(|p: SubscriptionPlan| p@),
            find_plan(pv, id@) == find_plan_from(pv, id@, i as int),
        decreases n - i,
    {
        if plans[i].id == *id {
            return Some(i);
        }
        i = i + 1;
    }
    None
}

/// Does the user row name a subscription plan (non-empty after
/// trimming)?
pub open spec fn spec_has_plan(user: UserView) -> bool {
    match user.plan_id {
        Some(s) => trim_of(s).len() > 0,
        None => false,
    }
}

impl UserAccount {
    /// Clear a stale subscription in place: when a plan is named but the
    /// subscription is expired (or has no expiry), both fields are
    /// nulled. Reports whether anything changed.
    pub fn clear_subscription_if_expired(&mut self, now_ms: i64) -> (r: bool)
        ensures
            r == (spec_has_plan(old(self)@) && (match old(self)@.expires_at {
                Some(e) => e <= now_ms,
                None => 0 <= now_ms,
            })),
            r ==> final(self)@ == (UserView {
                plan_id: None,
                expires_at: None,
                ..old(self)@
            }),
            !r ==> final(self)@ == old(self)@,
    {
        let has_plan = match self.subscription_plan_id {
            Some(ref s) => trim_str(s.as_str()).unicode_len() > 0,
            None => false,
        };
        if !has_plan {
            return false;
        }
        let expires_at: i64 = match self.subscription_expires_at_ms_utc {
            Some(e) => e,
            None => 0,
        };
        if expires_at > now_ms {
            return false;
        }
        self.subscription_plan_id = None;
        self.subscription_expires_at_ms_utc = None;
        true
    }

    /// Reset the monthly outbound counter when the UTC month has rolled
    /// over, before any outbound bytes of the current request are added.
    pub fn reset_outbound_if_new_month(&mut self, now_ms: i64)
        ensures
            old(self)@.api_outbound_month_utc == spec_month_utc(now_ms as int) ==> final(self)@
                == old(self)@,
            old(self)@.api_outbound_month_utc != spec_month_utc(now_ms as int) ==> final(self)@
                == (UserView {
                api_outbound_bytes: 0,
                api_outbound_month_utc: spec_month_utc(now_ms as int) as i64,
                ..old(self)@
            }),
    {
        let month = month_utc_from_unix_ms(now_ms);
        if self.api_outbound_month_utc != month {
            self.api_outbound_bytes = 0;
            self.api_outbound_month_utc = month;
        }
    }
}

} // verus!
