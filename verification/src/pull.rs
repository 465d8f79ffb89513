//! The pull handler: a cursor-paginated read of the committed log with
//! device-echo suppression and rollback detection, and the outbound-byte
//! accounting that follows a response.

use vstd::prelude::*;

use crate::push::{spec_banned, spec_user_entry, ApiError};
use crate::records::CommittedRecord;
use crate::records::CommittedView;
use crate::store::{keys_wf, total_b64_of, StateView, SyncState, UserView};

verus! {

/// Does a committed row lie past the cursor and come from a device other
/// than the excluded one?
pub open spec fn pull_matches(r: CommittedView, since: i64, excl: Option<Seq<char>>) -> bool {
    r.seq > since && (match excl {
        Some(d) => r.hlc.device != d,
        None => true,
    })
}

/// The filter predicate over the log.
pub open spec fn pull_pred(since: i64, excl: Option<Seq<char>>) -> spec_fn(CommittedView) -> bool {
    |r: CommittedView| pull_matches(r, since, excl)
}

/// The page a pull returns: the matching rows in log order, cut to the
/// page limit.
pub open spec fn spec_pull_window(
    c: Seq<CommittedView>,
    since: i64,
    excl: Option<Seq<char>>,
    limit: int,
) -> Seq<CommittedView> {
    let f = c.filter(pull_pred(since, excl));
    if f.len() <= limit {
        f
    } else {
        f.take(limit)
    }
}

/// The cursor actually used: negative cursors read from the start.
pub open spec fn clamped_since(since: i64) -> i64 {
    if since < 0 {
        0
    } else {
        since
    }
}

/// The page size actually used: at least one row, at most the configured
/// maximum.
pub open spec fn clamped_limit(limit: i64) -> i64 {
    if limit < 1 {
        1
    } else if limit > crate::MAX_PULL_LIMIT {
        crate::MAX_PULL_LIMIT
    } else {
        limit
    }
}

/// The log head: the highest committed sequence number, 0 when empty.
pub open spec fn head_of(st: StateView) -> i64 {
    if st.committed.len() == 0 {
        0
    } else {
        st.committed.last().seq
    }
}

/// A page of results.
#[derive(Debug)]
pub struct PullResponse {
    pub records: Vec<CommittedRecord>,
    pub next_since: i64,
}

impl SyncState {
    /// The pull handler. Entry accounting (month rollover, stale
    /// subscription clearing) is applied first and kept even when the
    /// request then fails; a banned user or one over the storage or
    /// outbound allowance gets an error, and nothing else does. The
    /// cursor is clamped to be non-negative and the page size to
    /// `1..=MAX_PULL_LIMIT`. The page holds the committed rows past the
    /// cursor, except those stamped by the excluded device, in log
    /// order, cut to the page size; the new cursor is the last returned
    /// sequence number, or, on an empty page, the log head, so that a
    /// cursor beyond the head regresses.
    pub fn pull_sync(
        &mut self,
        billing: &crate::quota::BillingConfig,
        since: i64,
        limit: i64,
        exclude_device_id: Option<&String>,
        now_ms: i64,
    ) -> (r: Result<PullResponse, ApiError>)
        requires
            keys_wf(old(self)@),
        ensures
            ({
                let u1 = spec_user_entry(old(self)@.user, now_ms);
                let q = crate::quota::spec_effective_quota(billing@, u1, now_ms);
                let storage_over = match q.allowed_storage_b64 {
                    Some(m) => u1.stored_b64 > m,
                    None => false,
                };
                let outbound_over = match q.allowed_outbound_bytes {
                    Some(m) => u1.api_outbound_bytes > m,
                    None => false,
                };
                let excl = match exclude_device_id {
                    Some(d) => Some(d@),
                    None => None,
                };
                &&& final(self)@ == (StateView { user: u1, ..old(self)@ })
                &&& ((r == Result::<PullResponse, ApiError>::Err(ApiError::Banned)) <==> spec_banned(
                    u1,
                ))
                &&& (!spec_banned(u1) ==> ((r == Result::<PullResponse, ApiError>::Err(
                    ApiError::QuotaExceeded,
                )) <==> (storage_over || outbound_over)))
                &&& (!spec_banned(u1) && !storage_over && !outbound_over ==> r is Ok)
                &&& (r is Ok ==> {
                    let page = r.unwrap();
                    let window = spec_pull_window(
                        old(self)@.committed,
                        clamped_since(since),
                        excl,
                        clamped_limit(limit) as int,
                    );
                    &&& page.records@.map_values(|x: CommittedRecord| x@) == window
                    &&& (window.len() == 0 ==> page.next_since == head_of(old(self)@))
                    &&& (window.len() > 0 ==> page.next_since == window.last().seq)
                    &&& (clamped_since(since) >= head_of(old(self)@) ==> window.len() == 0)
                    &&& (forall|a: int, b: int|
                        0 <= a < b < window.len() ==> #[trigger] window[a].seq < #[trigger] window[b].seq)
                })
            }),
    {
        proof {
            reveal(Seq::filter);
        }
        let since: i64 = if since < 0 {
            0
        } else {
            since
        };
        let limit: i64 = if limit < 1 {
            1
        } else if limit > crate::MAX_PULL_LIMIT {
            crate::MAX_PULL_LIMIT
        } else {
            limit
        };
        self.user.reset_outbound_if_new_month(now_ms);
        let _ = self.user.clear_subscription_if_expired(now_ms);
        let banned = match self.user.banned_at_ms_utc {
            Some(b) => b > 0,
            None => false,
        };
        if banned {
            return Err(ApiError::Banned);
        }
        let quota = crate::quota::compute_effective_quota(billing, &self.user, now_ms);
        match quota.allowed_storage_b64 {
            Some(m) => if self.user.stored_b64 > m {
                return Err(ApiError::QuotaExceeded);
            },
            None => {},
        }
        match quota.allowed_outbound_bytes {
            Some(m) => if self.user.api_outbound_bytes > m {
                return Err(ApiError::QuotaExceeded);
            },
            None => {},
        }
        let ghost cs = self@.committed;
        let ghost excl: Option<Seq<char>> = match exclude_device_id {
            Some(d) => Some(d@),
            None => None,
        };
        let ghost pred = pull_pred(since, excl);
        let mut records: Vec<CommittedRecord> = Vec::new();
        let n = self.committed.len();
        let mut i: usize = 0;
        let mut full = false;
        while i < n && !full
            invariant
                0 <= i <= n,
                n == self.committed.len(),
                cs == self@.committed,
                pred == pull_pred(since, excl),
                excl == (match exclude_device_id {
                    Some(d) => Some(d@),
                    None => None,
                }),
                1 <= limit,
                records@.map_values(|x: CommittedRecord| x@) =~= cs.take(i as int).filter(pred),
                records@.len() <= limit,
                full ==> records@.len() == limit,
                !full ==> records@.len() < limit,
            decreases n - i + (if full { 0int } else { 1int }),
        {
            proof {
                reveal(Seq::filter);
                assert(cs.take(i as int + 1).drop_last() =~= cs.take(i as int));
                assert(cs.take(i as int + 1).last() == cs[i as int]);
            }
            let row = &self.committed[i];
            let ghost rv = cs[i as int];
            proof {
                assert(rv == row@);
            }
            let matches = row.server_seq > since && (match exclude_device_id {
                Some(d) => !crate::strutil::str_eq(row.hlc.device_id.as_str(), d.as_str()),
                None => true,
            });
            proof {
                assert(matches == pull_matches(rv, since, excl));
                assert(pred(rv) == pull_matches(rv, since, excl));
            }
            if matches {
                let ghost mprev = records@.map_values(|x: CommittedRecord| x@);
                let cl = row.clone();
                records.push(cl);
                proof {
                    assert(records@.map_values(|x: CommittedRecord| x@) =~= mprev.push(rv));
                }
                if (records.len() as u64) >= (limit as u64) {
                    full = true;
                }
            } else {
                proof {
                    assert(!pred(rv));
                }
            }
            i = i + 1;
        }
        proof {
            if !full {
                assert(i == n);
                assert(cs.take(n as int) =~= cs);
                assert(records@.map_values(|x: CommittedRecord| x@) =~= spec_pull_window(
                    cs,
                    since,
                    excl,
                    limit as int,
                ));
            } else {
                // A full page is the first `limit` matches of the whole log.
                assert(cs =~= cs.take(i as int) + cs.skip(i as int));
                Seq::filter_distributes_over_add(cs.take(i as int), cs.skip(i as int), pred);
                assert(cs.filter(pred).take(limit as int) =~= cs.take(i as int).filter(pred));
                assert(records@.map_values(|x: CommittedRecord| x@) =~= spec_pull_window(
                    cs,
                    since,
                    excl,
                    limit as int,
                ));
            }
            assert(cs == old(self)@.committed);
            lemma_pull_window_sorted(old(self)@, since, excl, limit as int);
            if since >= head_of(old(self)@) {
                lemma_pull_window_empty_when_beyond_head(old(self)@, since, excl, limit as int);
            }
        }
        let next_since: i64 = if records.len() == 0 {
            self.head_seq()
        } else {
            let last = &records[records.len() - 1];
            last.server_seq
        };
        Ok(PullResponse { records, next_since })
    }

    /// Add response bytes to the monthly outbound counter, unbounded
    /// (used when no outbound allowance is configured).
    pub fn add_outbound(&mut self, bytes: i64)
        requires
            0 <= bytes,
            old(self)@.user.api_outbound_bytes + bytes <= i64::MAX,
        ensures
            final(self)@ == (StateView {
                user: UserView {
                    api_outbound_bytes: (old(self)@.user.api_outbound_bytes + bytes) as i64,
                    ..old(self)@.user
                },
                ..old(self)@
            }),
    {
        self.user.api_outbound_bytes = self.user.api_outbound_bytes + bytes;
    }

    /// Add response bytes to the monthly outbound counter only when the
    /// result stays within the allowance; reports whether it was applied.
    pub fn add_outbound_checked(&mut self, bytes: i64, limit: i64) -> (r: bool)
        requires
            0 <= bytes,
            old(self)@.user.api_outbound_bytes + bytes <= i64::MAX,
        ensures
            r == (old(self)@.user.api_outbound_bytes + bytes <= limit),
            r ==> final(self)@ == (StateView {
                user: UserView {
                    api_outbound_bytes: (old(self)@.user.api_outbound_bytes + bytes) as i64,
                    ..old(self)@.user
                },
                ..old(self)@
            }),
            !r ==> final(self)@ == old(self)@,
    {
        if self.user.api_outbound_bytes + bytes <= limit {
            self.user.api_outbound_bytes = self.user.api_outbound_bytes + bytes;
            true
        } else {
            false
        }
    }
}

/// The page is strictly increasing in `server_seq` (the order a client
/// observes through repeated pulls).
pub proof fn lemma_pull_window_sorted(st: StateView, since: i64, excl: Option<Seq<char>>, limit: int)
    requires
        keys_wf(st),
        limit >= 0,
    ensures
        forall|a: int, b: int|
            0 <= a < b < spec_pull_window(st.committed, since, excl, limit).len()
                ==> #[trigger] spec_pull_window(st.committed, since, excl, limit)[a].seq
                < #[trigger] spec_pull_window(st.committed, since, excl, limit)[b].seq,
{
    let f = st.committed.filter(pull_pred(since, excl));
    let w = spec_pull_window(st.committed, since, excl, limit);
    crate::attach::lemma_filter_embedding(st.committed, pull_pred(since, excl));
    assert forall|a: int, b: int| 0 <= a < b < w.len() implies #[trigger] w[a].seq
        < #[trigger] w[b].seq by {
        if f.len() <= limit {
            assert(w == f);
        } else {
            assert(w == f.take(limit));
            assert(w[a] == f[a]);
            assert(w[b] == f[b]);
        }
        assert(0 <= a < b < f.len());
        let (j1, j2) = choose|j1: int, j2: int|
            0 <= j1 < j2 < st.committed.len() && f[a] == st.committed[j1] && f[b]
                == st.committed[j2];
        assert(st.committed[j1].seq < st.committed[j2].seq);
        assert(w[a] == st.committed[j1] && w[b] == st.committed[j2]);
    }
}

/// Rollback detection: when the cursor is at or past the head, the page
/// is empty (and the handler then reports the head as the new cursor).
pub proof fn lemma_pull_window_empty_when_beyond_head(
    st: StateView,
    since: i64,
    excl: Option<Seq<char>>,
    limit: int,
)
    requires
        keys_wf(st),
        limit >= 0,
        since >= head_of(st),
    ensures
        spec_pull_window(st.committed, since, excl, limit).len() == 0,
{
    let f = st.committed.filter(pull_pred(since, excl));
    crate::attach::lemma_filter_embedding(st.committed, pull_pred(since, excl));
    st.committed.filter_lemma(pull_pred(since, excl));
    if f.len() > 0 {
        let j = choose|j: int| 0 <= j < st.committed.len() && f[0] == st.committed[j];
        if j < st.committed.len() - 1 {
            assert(st.committed[j].seq < st.committed[st.committed.len() - 1].seq);
        }
        assert(st.committed[j].seq <= head_of(st));
        assert(pull_matches(f[0], since, excl));
        assert(false);
    }
}

/// A row past the cursor, not excluded, is returned whenever the page is
/// large enough to hold every match.
pub proof fn lemma_pull_returns_row(
    st: StateView,
    since: i64,
    excl: Option<Seq<char>>,
    limit: int,
    k: int,
)
    requires
        keys_wf(st),
        0 <= k < st.committed.len(),
        pull_matches(st.committed[k], since, excl),
        st.committed.filter(pull_pred(since, excl)).len() <= limit,
    ensures
        exists|j: int|
            0 <= j < spec_pull_window(st.committed, since, excl, limit).len()
                && #[trigger] spec_pull_window(st.committed, since, excl, limit)[j]
                == st.committed[k],
{
    st.committed.filter_lemma(pull_pred(since, excl));
    let f = st.committed.filter(pull_pred(since, excl));
    assert(f.contains(st.committed[k]));
    let j = choose|j: int| 0 <= j < f.len() && f[j] == st.committed[k];
    assert(spec_pull_window(st.committed, since, excl, limit)[j] == st.committed[k]);
}

} // verus!
