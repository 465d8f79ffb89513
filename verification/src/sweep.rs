//! The staged-record sweeper: staged rows abandoned for longer than the
//! TTL are deleted and the stored total recomputed. A non-positive TTL
//! disables the sweep.

use vstd::prelude::*;

use crate::records::{staged_size, sum_staged, StagedRecord, StagedView};
use crate::store::{keys_wf, total_b64_of, StateView, SyncState, UserView};

verus! {

/// Rows young enough to survive a sweep at `cutoff`.
pub open spec fn fresh_pred(cutoff: i64) -> spec_fn(StagedView) -> bool {
    |r: StagedView| r.updated_at >= cutoff
}

/// `now` minus the TTL, saturating.
pub open spec fn sweep_cutoff(now: i64, ttl_ms: i64) -> i64 {
    if now - ttl_ms < i64::MIN {
        i64::MIN
    } else if now - ttl_ms > i64::MAX {
        i64::MAX
    } else {
        (now - ttl_ms) as i64
    }
}

/// Dropping staged rows by any predicate preserves the key invariant.
pub proof fn lemma_staged_filter_any_keys_wf(st: StateView, keep: spec_fn(StagedView) -> bool)
    requires
        keys_wf(st),
    ensures
        keys_wf(StateView { staged: st.staged.filter(keep), ..st }),
{
    let kept = st.staged.filter(keep);
    crate::attach::lemma_filter_embedding(st.staged, keep);
    assert forall|i: int, j: int|
        0 <= i < kept.len() && 0 <= j < kept.len() && i != j implies !crate::store::s_key_match(
        #[trigger] kept[i],
        (#[trigger] kept[j]).rtype,
        kept[j].rid,
    ) by {
        if i < j {
            let (u1, u2) = choose|u1: int, u2: int|
                0 <= u1 < u2 < st.staged.len() && kept[i] == st.staged[u1] && kept[j]
                    == st.staged[u2];
            assert(!crate::store::s_key_match(st.staged[u1], st.staged[u2].rtype, st.staged[u2].rid));
        } else {
            let (u1, u2) = choose|u1: int, u2: int|
                0 <= u1 < u2 < st.staged.len() && kept[j] == st.staged[u1] && kept[i]
                    == st.staged[u2];
            assert(!crate::store::s_key_match(st.staged[u2], st.staged[u1].rtype, st.staged[u1].rid));
        }
    }
    assert forall|i: int| 0 <= i < kept.len() implies crate::records::is_stageable_type(
        (#[trigger] kept[i]).rtype,
    ) by {
        let u = choose|u: int| 0 <= u < st.staged.len() && kept[i] == st.staged[u];
        assert(crate::records::is_stageable_type(st.staged[u].rtype));
    }
    assert forall|i: int, j: int|
        0 <= i < st.committed.len() && 0 <= j < kept.len() implies !crate::store::c_key_match(
        #[trigger] st.committed[i],
        (#[trigger] kept[j]).rtype,
        kept[j].rid,
    ) by {
        let u = choose|u: int| 0 <= u < st.staged.len() && kept[j] == st.staged[u];
        assert(!crate::store::c_key_match(st.committed[i], st.staged[u].rtype, st.staged[u].rid));
    }
}

impl SyncState {
    /// One sweeper tick: delete staged rows whose `updated_at_ms_utc` is
    /// older than `now - ttl_ms` and recompute the stored total. Disabled
    /// (a no-op returning 0) when `ttl_ms <= 0`.
    pub fn gc_staged_records(&mut self, ttl_ms: i64, now_ms: i64) -> (r: i64)
        requires
            crate::store::wf(old(self)@),
            old(self)@.staged.len() < i64::MAX,
        ensures
            ttl_ms <= 0 ==> final(self)@ == old(self)@ && r == 0,
            ttl_ms > 0 ==> {
                let kept = old(self)@.staged.filter(fresh_pred(sweep_cutoff(now_ms, ttl_ms)));
                &&& r == old(self)@.staged.len() - kept.len()
                &&& (r == 0 ==> final(self)@ == old(self)@)
                &&& (r > 0 ==> final(self)@ == (StateView {
                    staged: kept,
                    user: UserView {
                        stored_b64: (total_b64_of(old(self)@) - (sum_staged(old(self)@.staged)
                            - sum_staged(kept))) as i64,
                        ..old(self)@.user
                    },
                    ..old(self)@
                }))
                &&& crate::store::wf(final(self)@)
            },
    {
        if ttl_ms <= 0 {
            return 0;
        }
        proof {
            reveal(Seq::filter);
        }
        let cutoff: i64 = match now_ms.checked_sub(ttl_ms) {
            Some(v) => v,
            None => i64::MIN,
        };
        proof {
            assert(cutoff == sweep_cutoff(now_ms, ttl_ms));
        }
        let ghost keep = fresh_pred(cutoff);
        let mut kept: Vec<StagedRecord> = Vec::new();
        let mut removed: i64 = 0;
        let n = self.staged.len();
        let mut i: usize = 0;
        while i < n
            invariant
                0 <= i <= n,
                self@ == old(self)@,
                n == self.staged.len(),
                n < i64::MAX,
                keep == fresh_pred(cutoff),
                kept@.map_values(|x: StagedRecord| x@) =~= self@.staged.take(i as int).filter(
                    keep,
                ),
                removed == i - kept@.len(),
                0 <= removed <= i,
            decreases n - i,
        {
            proof {
                reveal(Seq::filter);
                assert(self@.staged.take(i as int + 1).drop_last() =~= self@.staged.take(i as int));
                assert(self@.staged.take(i as int + 1).last() == self@.staged[i as int]);
            }
            let row = &self.staged[i];
            if row.updated_at_ms_utc < cutoff {
                removed = removed + 1;
            } else {
                let cl = row.clone();
                kept.push(cl);
                proof {
                    assert(kept@.map_values(|x: StagedRecord| x@) =~= self@.staged.take(
                        i as int + 1,
                    ).filter(keep));
                }
            }
            i = i + 1;
        }
        proof {
            assert(self@.staged.take(n as int) =~= self@.staged);
        }
        if removed == 0 {
            proof {
                assert(kept@.map_values(|x: StagedRecord| x@).len() == old(self)@.staged.len());
            }
            return 0;
        }
        proof {
            lemma_staged_filter_any_keys_wf(old(self)@, keep);
            crate::attach::lemma_sum_filter_le(old(self)@.staged, keep);
            crate::records::lemma_sum_committed_nonneg(old(self)@.committed);
        }
        self.staged = kept;
        let total = self.compute_total_b64();
        self.user.stored_b64 = total;
        removed
    }
}

} // verus!
