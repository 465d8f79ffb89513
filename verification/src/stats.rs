//! Statistics selectors: the granularity and metric keys of the usage
//! dashboard, and the row shapes they pick from.

use vstd::prelude::*;

use crate::strutil::{lower_of, str_eq, to_lowercase, trim_of, trim_str};

verus! {

/// Bucketing granularity of a statistics query.
#[derive(Debug, Clone, Copy, PartialEq, Eq, Structural)]
pub enum Granularity {
    Day,
    Month,
    Year,
}

/// One aggregated bucket row.
#[derive(Debug)]
pub struct StatsRow {
    pub bucket: String,
    pub api_requests: i64,
    pub api_in_bytes: i64,
    pub api_out_bytes: i64,
    pub new_users: i64,
    pub cdkey_activations: i64,
    pub active_users: i64,
}

/// Totals over all buckets.
#[derive(Debug, Clone, Copy)]
pub struct DailyAgg {
    pub api_requests: i64,
    pub api_in_bytes: i64,
    pub api_out_bytes: i64,
    pub new_users: i64,
    pub cdkey_activations: i64,
    pub active_users: i64,
}

/// The metric a statistics query selects.
#[derive(Debug, Clone, Copy, PartialEq, Eq, Structural)]
pub enum Metric {
    ApiRequests,
    ApiInBytes,
    ApiOutBytes,
    NewUsers,
    CdkeyActivations,
    ActiveUsers,
}

/// The normalized key of an optional query parameter.
pub open spec fn query_key(raw: Option<&str>) -> Seq<char> {
    match raw {
        Some(s) => lower_of(trim_of(s@)),
        None => lower_of(trim_of(""@)),
    }
}

impl Granularity {
    /// Parse a granularity key, defaulting to days.
    pub fn from_str(raw: Option<&str>) -> (r: Granularity)
        ensures
            ({
                let k = query_key(raw);
                r == (if k == "month"@ || k == "m"@ {
                    Granularity::Month
                } else if k == "year"@ || k == "y"@ {
                    Granularity::Year
                } else {
                    Granularity::Day
                })
            }),
    {
        let s: &str = match raw {
            Some(s) => s,
            None => "",
        };
        let k = to_lowercase(trim_str(s));
        if str_eq(k.as_str(), "month") || str_eq(k.as_str(), "m") {
            Granularity::Month
        } else if str_eq(k.as_str(), "year") || str_eq(k.as_str(), "y") {
            Granularity::Year
        } else {
            Granularity::Day
        }
    }
}

impl Metric {
    /// Parse a metric key, defaulting to request counts.
    pub fn from_str(raw: Option<&str>) -> (r: Metric)
        ensures
            ({
                let k = query_key(raw);
                r == (if k == "api_in_bytes"@ || k == "in"@ || k == "in_bytes"@ {
                    Metric::ApiInBytes
                } else if k == "api_out_bytes"@ || k == "out"@ || k == "out_bytes"@ {
                    Metric::ApiOutBytes
                } else if k == "new_users"@ || k == "new"@ {
                    Metric::NewUsers
                } else if k == "cdkey_activations"@ || k == "cdkey"@ || k == "activations"@ {
                    Metric::CdkeyActivations
                } else if k == "active_users"@ || k == "active"@ || k == "dau"@ {
                    Metric::ActiveUsers
                } else {
                    Metric::ApiRequests
                })
            }),
    {
        let s: &str = match raw {
            Some(s) => s,
            None => "",
        };
        let k = to_lowercase(trim_str(s));
        if str_eq(k.as_str(), "api_in_bytes") || str_eq(k.as_str(), "in") || str_eq(
            k.as_str(),
            "in_bytes",
        ) {
            Metric::ApiInBytes
        } else if str_eq(k.as_str(), "api_out_bytes") || str_eq(k.as_str(), "out") || str_eq(
            k.as_str(),
            "out_bytes",
        ) {
            Metric::ApiOutBytes
        } else if str_eq(k.as_str(), "new_users") || str_eq(k.as_str(), "new") {
            Metric::NewUsers
        } else if str_eq(k.as_str(), "cdkey_activations") || str_eq(k.as_str(), "cdkey") || str_eq(
            k.as_str(),
            "activations",
        ) {
            Metric::CdkeyActivations
        } else if str_eq(k.as_str(), "active_users") || str_eq(k.as_str(), "active") || str_eq(
            k.as_str(),
            "dau",
        ) {
            Metric::ActiveUsers
        } else {
            Metric::ApiRequests
        }
    }

    /// The canonical query value of this metric.
    pub fn as_value(&self) -> (r: &'static str)
        ensures
            r@ == (match *self {
                Metric::ApiRequests => "api_requests"@,
                Metric::ApiInBytes => "api_in_bytes"@,
                Metric::ApiOutBytes => "api_out_bytes"@,
                Metric::NewUsers => "new_users"@,
                Metric::CdkeyActivations => "cdkey_activations"@,
                Metric::ActiveUsers => "active_users"@,
            }),
    {
        match *self {
            Metric::ApiRequests => "api_requests",
            Metric::ApiInBytes => "api_in_bytes",
            Metric::ApiOutBytes => "api_out_bytes",
            Metric::NewUsers => "new_users",
            Metric::CdkeyActivations => "cdkey_activations",
            Metric::ActiveUsers => "active_users",
        }
    }

    /// This metric's column of a bucket row.
    pub fn pick(&self, row: &StatsRow) -> (r: i64)
        ensures
            r == (match *self {
                Metric::ApiRequests => row.api_requests,
                Metric::ApiInBytes => row.api_in_bytes,
                Metric::ApiOutBytes => row.api_out_bytes,
                Metric::NewUsers => row.new_users,
                Metric::CdkeyActivations => row.cdkey_activations,
                Metric::ActiveUsers => row.active_users,
            }),
    {
        match *self {
            Metric::ApiRequests => row.api_requests,
            Metric::ApiInBytes => row.api_in_bytes,
            Metric::ApiOutBytes => row.api_out_bytes,
            Metric::NewUsers => row.new_users,
            Metric::CdkeyActivations => row.cdkey_activations,
            Metric::ActiveUsers => row.active_users,
        }
    }
}

/// This metric's column of the totals row.
pub fn metric_total(metric: Metric, totals: &DailyAgg) -> (r: i64)
    ensures
        r == (match metric {
            Metric::ApiRequests => totals.api_requests,
            Metric::ApiInBytes => totals.api_in_bytes,
            Metric::ApiOutBytes => totals.api_out_bytes,
            Metric::NewUsers => totals.new_users,
            Metric::CdkeyActivations => totals.cdkey_activations,
            Metric::ActiveUsers => totals.active_users,
        }),
{
    match metric {
        Metric::ApiRequests => totals.api_requests,
        Metric::ApiInBytes => totals.api_in_bytes,
        Metric::ApiOutBytes => totals.api_out_bytes,
        Metric::NewUsers => totals.new_users,
        Metric::CdkeyActivations => totals.cdkey_activations,
        Metric::ActiveUsers => totals.active_users,
    }
}

} // verus!
