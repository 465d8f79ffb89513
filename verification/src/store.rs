//! The per-user synchronization state: the committed log, the staging
//! store, the server-sequence counter, attachment references and the
//! user's accounting row, together with the low-level verified operations
//! the handlers are built from.

use vstd::prelude::*;

use crate::records::{
    att_type, chunk_prefix, chunk_type, committed_belongs_to, rec_size, staged_belongs_to,
    staged_size, sum_committed, sum_staged, todo_type, AttachmentRef, CommittedRecord,
    CommittedView, RefView, StagedRecord, StagedView,
};
use crate::records::{
    lemma_sum_committed_nonneg, lemma_sum_committed_push, lemma_sum_committed_remove,
    lemma_sum_staged_nonneg, lemma_sum_staged_push, lemma_sum_staged_remove,
};
use crate::strutil::starts_with;

verus! {

/// The user's accounting and billing row.
#[derive(Debug)]
pub struct UserAccount {
    pub base_storage_b64: Option<i64>,
    pub base_outbound_bytes: Option<i64>,
    pub subscription_plan_id: Option<String>,
    pub subscription_expires_at_ms_utc: Option<i64>,
    pub banned_at_ms_utc: Option<i64>,
    pub stored_b64: i64,
    pub api_outbound_bytes: i64,
    pub api_outbound_month_utc: i64,
}

/// Mathematical value of a user account row.
#[verifier::ext_equal]
pub ghost struct UserView {
    pub base_storage_b64: Option<i64>,
    pub base_outbound_bytes: Option<i64>,
    pub plan_id: Option<Seq<char>>,
    pub expires_at: Option<i64>,
    pub banned_at: Option<i64>,
    pub stored_b64: i64,
    pub api_outbound_bytes: i64,
    pub api_outbound_month_utc: i64,
}

impl View for UserAccount {
    type V = UserView;

    open spec fn view(&self) -> UserView {
        UserView {
            base_storage_b64: self.base_storage_b64,
            base_outbound_bytes: self.base_outbound_bytes,
            plan_id: match self.subscription_plan_id {
                Some(ref s) => Some(s@),
                None => None,
            },
            expires_at: self.subscription_expires_at_ms_utc,
            banned_at: self.banned_at_ms_utc,
            stored_b64: self.stored_b64,
            api_outbound_bytes: self.api_outbound_bytes,
            api_outbound_month_utc: self.api_outbound_month_utc,
        }
    }
}

impl Clone for UserAccount {
    fn clone(&self) -> (r: Self)
        ensures
            r@ == self@,
    {
        UserAccount {
            base_storage_b64: self.base_storage_b64,
            base_outbound_bytes: self.base_outbound_bytes,
            subscription_plan_id: match self.subscription_plan_id {
                Some(ref s) => Some(s.clone()),
                None => None,
            },
            subscription_expires_at_ms_utc: self.subscription_expires_at_ms_utc,
            banned_at_ms_utc: self.banned_at_ms_utc,
            stored_b64: self.stored_b64,
            api_outbound_bytes: self.api_outbound_bytes,
            api_outbound_month_utc: self.api_outbound_month_utc,
        }
    }
}

impl UserAccount {
    /// A freshly created account: no overrides, no subscription, nothing
    /// stored.
    pub fn new() -> (r: UserAccount)
        ensures
            r@ == (UserView {
                base_storage_b64: None,
                base_outbound_bytes: None,
                plan_id: None,
                expires_at: None,
                banned_at: None,
                stored_b64: 0,
                api_outbound_bytes: 0,
                api_outbound_month_utc: 0,
            }),
    {
        UserAccount {
            base_storage_b64: None,
            base_outbound_bytes: None,
            subscription_plan_id: None,
            subscription_expires_at_ms_utc: None,
            banned_at_ms_utc: None,
            stored_b64: 0,
            api_outbound_bytes: 0,
            api_outbound_month_utc: 0,
        }
    }
}

/// The whole synchronization state of one user.
#[derive(Debug)]
pub struct SyncState {
    pub committed: Vec<CommittedRecord>,
    pub staged: Vec<StagedRecord>,
    pub next_seq: i64,
    pub refs: Vec<AttachmentRef>,
    pub user: UserAccount,
}

/// Mathematical value of a [`SyncState`].
#[verifier::ext_equal]
pub ghost struct StateView {
    pub committed: Seq<CommittedView>,
    pub staged: Seq<StagedView>,
    pub next_seq: i64,
    pub refs: Seq<RefView>,
    pub user: UserView,
}

impl View for SyncState {
    type V = StateView;

    open spec fn view(&self) -> StateView {
        StateView {
            committed: self.committed@.map_values(|r: CommittedRecord| r@),
            staged: self.staged@.map_values(|r: StagedRecord| r@),
            next_seq: self.next_seq,
            refs: self.refs@.map_values(|r: AttachmentRef| r@),
            user: self.user@,
        }
    }
}

/// Total stored payload bytes across the committed and staged stores.
pub open spec fn total_b64_of(s: StateView) -> int {
    sum_committed(s.committed) + sum_staged(s.staged)
}

/// Number of rows across the committed and staged stores.
pub open spec fn record_count_of(s: StateView) -> int {
    s.committed.len() + s.staged.len() as int
}

/// Two rows address the same logical record.
pub open spec fn c_key_match(r: CommittedView, t: Seq<char>, id: Seq<char>) -> bool {
    r.rtype == t && r.rid == id
}

/// Staged analogue of `c_key_match`.
pub open spec fn s_key_match(r: StagedView, t: Seq<char>, id: Seq<char>) -> bool {
    r.rtype == t && r.rid == id
}

/// Structural well-formedness of the key space: sequence numbers are
/// positive, strictly increasing in log order and bounded by the counter;
/// keys are unique within each store and never present in both.
pub open spec fn keys_wf(s: StateView) -> bool {
    &&& 0 <= s.next_seq
    &&& forall|i: int|
        0 <= i < s.committed.len() ==> 0 < #[trigger] s.committed[i].seq <= s.next_seq
    &&& forall|i: int, j: int|
        0 <= i < j < s.committed.len() ==> #[trigger] s.committed[i].seq < #[trigger] s.committed[j].seq
    &&& forall|i: int, j: int|
        0 <= i < s.committed.len() && 0 <= j < s.committed.len() && i != j ==> !c_key_match(
            #[trigger] s.committed[i],
            #[trigger] s.committed[j].rtype,
            s.committed[j].rid,
        )
    &&& forall|i: int, j: int|
        0 <= i < s.staged.len() && 0 <= j < s.staged.len() && i != j ==> !s_key_match(
            #[trigger] s.staged[i],
            #[trigger] s.staged[j].rtype,
            s.staged[j].rid,
        )
    &&& forall|i: int|
        0 <= i < s.staged.len() ==> crate::records::is_stageable_type(
            (#[trigger] s.staged[i]).rtype,
        )
    &&& forall|i: int, j: int|
        0 <= i < s.committed.len() && 0 <= j < s.staged.len() ==> !c_key_match(
            #[trigger] s.committed[i],
            (#[trigger] s.staged[j]).rtype,
            s.staged[j].rid,
        )
    &&& forall|i: int, j: int|
        0 <= i < s.refs.len() && 0 <= j < s.refs.len() && i != j ==> (#[trigger] s.refs[i]).attachment_id
            != (#[trigger] s.refs[j]).attachment_id
}

/// Full well-formedness: the key space is sound and the user's running
/// `stored_b64` equals the true sum over both stores.
pub open spec fn wf(s: StateView) -> bool {
    &&& keys_wf(s)
    &&& s.user.stored_b64 == total_b64_of(s)
}

/// Index of the first committed row with the given key.
pub open spec fn find_committed_from(
    s: Seq<CommittedView>,
    t: Seq<char>,
    id: Seq<char>,
    i: int,
) -> Option<int>
    decreases s.len() - i,
{
    if i < 0 || i >= s.len() {
        None
    } else if c_key_match(s[i], t, id) {
        Some(i)
    } else {
        find_committed_from(s, t, id, i + 1)
    }
}

/// Index of the committed row with the given key, if any.
pub open spec fn find_committed(s: Seq<CommittedView>, t: Seq<char>, id: Seq<char>) -> Option<
    int,
> {
    find_committed_from(s, t, id, 0)
}

/// Index of the first staged row with the given key.
pub open spec fn find_staged_from(
    s: Seq<StagedView>,
    t: Seq<char>,
    id: Seq<char>,
    i: int,
) -> Option<int>
    decreases s.len() - i,
{
    if i < 0 || i >= s.len() {
        None
    } else if s_key_match(s[i], t, id) {
        Some(i)
    } else {
        find_staged_from(s, t, id, i + 1)
    }
}

/// Index of the staged row with the given key, if any.
pub open spec fn find_staged(s: Seq<StagedView>, t: Seq<char>, id: Seq<char>) -> Option<int> {
    find_staged_from(s, t, id, 0)
}

/// What `find_committed_from` finds: the first match at or after `i`.
pub proof fn lemma_find_committed_from(s: Seq<CommittedView>, t: Seq<char>, id: Seq<char>, i: int)
    requires
        0 <= i <= s.len(),
    ensures
        match find_committed_from(s, t, id, i) {
            Some(k) => i <= k < s.len() && c_key_match(s[k], t, id) && forall|j: int|
                i <= j < k ==> !c_key_match(#[trigger] s[j], t, id),
            None => forall|j: int| i <= j < s.len() ==> !c_key_match(#[trigger] s[j], t, id),
        },
    decreases s.len() - i,
{
    if i < s.len() && !c_key_match(s[i], t, id) {
        lemma_find_committed_from(s, t, id, i + 1);
    }
}

/// What `find_staged_from` finds.
pub proof fn lemma_find_staged_from(s: Seq<StagedView>, t: Seq<char>, id: Seq<char>, i: int)
    requires
        0 <= i <= s.len(),
    ensures
        match find_staged_from(s, t, id, i) {
            Some(k) => i <= k < s.len() && s_key_match(s[k], t, id) && forall|j: int|
                i <= j < k ==> !s_key_match(#[trigger] s[j], t, id),
            None => forall|j: int| i <= j < s.len() ==> !s_key_match(#[trigger] s[j], t, id),
        },
    decreases s.len() - i,
{
    if i < s.len() && !s_key_match(s[i], t, id) {
        lemma_find_staged_from(s, t, id, i + 1);
    }
}

/// Upsert into the committed log: replace the row with the same key if one
/// exists, appending the new row at the tail of the log.
pub open spec fn spec_upsert_committed(s: Seq<CommittedView>, r: CommittedView) -> Seq<
    CommittedView,
> {
    match find_committed(s, r.rtype, r.rid) {
        Some(i) => s.remove(i).push(r),
        None => s.push(r),
    }
}

/// Upsert into the staging store.
pub open spec fn spec_upsert_staged(s: Seq<StagedView>, r: StagedView) -> Seq<StagedView> {
    match find_staged(s, r.rtype, r.rid) {
        Some(i) => s.remove(i).push(r),
        None => s.push(r),
    }
}

impl SyncState {
    /// An empty state for a newly created user.
    pub fn new() -> (r: SyncState)
        ensures
            r@.committed =~= Seq::<CommittedView>::empty(),
            r@.staged =~= Seq::<StagedView>::empty(),
            r@.next_seq == 0,
            r@.refs =~= Seq::<RefView>::empty(),
            r@.user == (UserView {
                base_storage_b64: None,
                base_outbound_bytes: None,
                plan_id: None,
                expires_at: None,
                banned_at: None,
                stored_b64: 0,
                api_outbound_bytes: 0,
                api_outbound_month_utc: 0,
            }),
            wf(r@),
    {
        let r = SyncState {
            committed: Vec::new(),
            staged: Vec::new(),
            next_seq: 0,
            refs: Vec::new(),
            user: UserAccount::new(),
        };
        proof {
            assert(r@.committed =~= Seq::<CommittedView>::empty());
            assert(r@.staged =~= Seq::<StagedView>::empty());
            assert(r@.refs =~= Seq::<RefView>::empty());
        }
        r
    }

    /// Allocate the next server sequence number: atomically increment the
    /// per-user counter and return the new value.
    pub fn alloc_server_seq(&mut self) -> (seq: i64)
        requires
            old(self).next_seq < i64::MAX,
        ensures
            seq == old(self)@.next_seq + 1,
            final(self)@ == (StateView { next_seq: seq, ..old(self)@ }),
    {
        self.next_seq = self.next_seq + 1;
        self.next_seq
    }

    /// Find the committed row with this key.
    pub fn find_committed_idx(&self, t: &String, id: &String) -> (r: Option<usize>)
        ensures
            match r {
                Some(i) => find_committed(self@.committed, t@, id@) == Some(i as int),
                None => find_committed(self@.committed, t@, id@) is None,
            },
    {
        let n = self.committed.len();
        let mut i: usize = 0;
        while i < n
            invariant
                0 <= i <= n,
                n == self.committed.len(),
                find_committed(self@.committed, t@, id@) == find_committed_from(
                    self@.committed,
                    t@,
                    id@,
                    i as int,
                ),
            decreases n - i,
        {
            let row = &self.committed[i];
            if row.record_type == *t && row.record_id == *id {
                assert(c_key_match(self@.committed[i as int], t@, id@));
                return Some(i);
            }
            assert(!c_key_match(self@.committed[i as int], t@, id@));
            i = i + 1;
        }
        None
    }

    /// Find the staged row with this key.
    pub fn find_staged_idx(&self, t: &String, id: &String) -> (r: Option<usize>)
        ensures
            match r {
                Some(i) => find_staged(self@.staged, t@, id@) == Some(i as int),
                None => find_staged(self@.staged, t@, id@) is None,
            },
    {
        let n = self.staged.len();
        let mut i: usize = 0;
        while i < n
            invariant
                0 <= i <= n,
                n == self.staged.len(),
                find_staged(self@.staged, t@, id@) == find_staged_from(
                    self@.staged,
                    t@,
                    id@,
                    i as int,
                ),
            decreases n - i,
        {
            let row = &self.staged[i];
            if row.record_type == *t && row.record_id == *id {
                assert(s_key_match(self@.staged[i as int], t@, id@));
                return Some(i);
            }
            assert(!s_key_match(self@.staged[i as int], t@, id@));
            i = i + 1;
        }
        None
    }

    /// Upsert a row into the committed log.
    pub fn upsert_committed(&mut self, row: CommittedRecord)
        ensures
            final(self)@ == (StateView {
                committed: spec_upsert_committed(old(self)@.committed, row@),
                ..old(self)@
            }),
    {
        let idx = self.find_committed_idx(&row.record_type, &row.record_id);
        proof {
            lemma_find_committed_from(self@.committed, row@.rtype, row@.rid, 0);
        }
        let ghost oldc = self@.committed;
        let ghost oldvec = self.committed@;
        match idx {
            Some(i) => {
                proof {
                    oldc.remove_ensures(i as int);
                    oldvec.remove_ensures(i as int);
                }
                self.committed.remove(i);
                self.committed.push(row);
                proof {
                    assert(final(self)@.committed =~= oldc.remove(i as int).push(row@));
                }
            },
            None => {
                self.committed.push(row);
                proof {
                    assert(final(self)@.committed =~= oldc.push(row@));
                }
            },
        }
        proof {
            assert(final(self)@ =~= (StateView {
                committed: spec_upsert_committed(old(self)@.committed, row@),
                ..old(self)@
            }));
        }
    }

    /// Upsert a row into the staging store.
    pub fn upsert_staged(&mut self, row: StagedRecord)
        ensures
            final(self)@ == (StateView {
                staged: spec_upsert_staged(old(self)@.staged, row@),
                ..old(self)@
            }),
    {
        let idx = self.find_staged_idx(&row.record_type, &row.record_id);
        proof {
            lemma_find_staged_from(self@.staged, row@.rtype, row@.rid, 0);
        }
        let ghost oldc = self@.staged;
        let ghost oldvec = self.staged@;
        match idx {
            Some(i) => {
                proof {
                    oldc.remove_ensures(i as int);
                    oldvec.remove_ensures(i as int);
                }
                self.staged.remove(i);
                self.staged.push(row);
                proof {
                    assert(final(self)@.staged =~= oldc.remove(i as int).push(row@));
                }
            },
            None => {
                self.staged.push(row);
                proof {
                    assert(final(self)@.staged =~= oldc.push(row@));
                }
            },
        }
        proof {
            assert(final(self)@ =~= (StateView {
                staged: spec_upsert_staged(old(self)@.staged, row@),
                ..old(self)@
            }));
        }
    }

    /// Remove the staged row with this key, if present; report its stored
    /// size.
    pub fn remove_staged_exact(&mut self, t: &String, id: &String) -> (r: Option<i64>)
        requires
            forall|i: int|
                0 <= i < old(self)@.staged.len() ==> staged_size(#[trigger] old(self)@.staged[i])
                    <= i64::MAX,
        ensures
            match find_staged(old(self)@.staged, t@, id@) {
                Some(i) => r == Some(staged_size(old(self)@.staged[i]) as i64) && final(self)@
                    == (StateView { staged: old(self)@.staged.remove(i), ..old(self)@ }),
                None => r is None && final(self)@ == old(self)@,
            },
    {
        let idx = self.find_staged_idx(t, id);
        proof {
            lemma_find_staged_from(self@.staged, t@, id@, 0);
        }
        let ghost oldc = self@.staged;
        let ghost oldvec = self.staged@;
        match idx {
            Some(i) => {
                let nlen = self.staged[i].nonce.as_str().unicode_len();
                let clen = self.staged[i].ciphertext.as_str().unicode_len();
                proof {
                    assert(staged_size(self@.staged[i as int]) == nlen + clen);
                }
                let sz: i64 = (nlen as i64) + (clen as i64);
                proof {
                    oldc.remove_ensures(i as int);
                    oldvec.remove_ensures(i as int);
                }
                self.staged.remove(i);
                proof {
                    assert(final(self)@.staged =~= oldc.remove(i as int));
                    assert(final(self)@ =~= (StateView {
                        staged: old(self)@.staged.remove(i as int),
                        ..old(self)@
                    }));
                }
                Some(sz)
            },
            None => None,
        }
    }

    /// Is there any live (non-tombstoned) todo record?
    pub fn has_live_todo(&self) -> (r: bool)
        ensures
            r == exists|i: int|
                0 <= i < self@.committed.len() && (#[trigger] self@.committed[i]).rtype
                    == todo_type() && self@.committed[i].deleted_at is None,
    {
        let n = self.committed.len();
        let mut i: usize = 0;
        while i < n
            invariant
                0 <= i <= n,
                n == self.committed.len(),
                forall|j: int|
                    0 <= j < i ==> !((#[trigger] self@.committed[j]).rtype == todo_type()
                        && self@.committed[j].deleted_at is None),
            decreases n - i,
        {
            let row = &self.committed[i];
            if crate::strutil::str_eq(row.record_type.as_str(), "todo")
                && row.deleted_at_ms_utc.is_none() {
                assert(self@.committed[i as int].rtype == todo_type() && self@.committed[
                i as int].deleted_at is None);
                return true;
            }
            i = i + 1;
        }
        false
    }

    /// The highest committed sequence number: the log head (0 when the log
    /// is empty).
    pub fn head_seq(&self) -> (r: i64)
        requires
            keys_wf(self@),
        ensures
            self@.committed.len() == 0 ==> r == 0,
            self@.committed.len() > 0 ==> r == self@.committed.last().seq,
            r >= 0,
    {
        if self.committed.len() == 0 {
            0
        } else {
            let row = &self.committed[self.committed.len() - 1];
            row.server_seq
        }
    }

    /// Recompute the total stored bytes over both stores.
    pub fn compute_total_b64(&self) -> (r: i64)
        requires
            total_b64_of(self@) <= i64::MAX,
        ensures
            r == total_b64_of(self@),
            r >= 0,
    {
        proof {
            lemma_sum_committed_nonneg(self@.committed);
            lemma_sum_staged_nonneg(self@.staged);
        }
        let mut acc: i64 = 0;
        let n = self.committed.len();
        let mut i: usize = 0;
        while i < n
            invariant
                0 <= i <= n,
                n == self.committed.len(),
                acc == sum_committed(self@.committed.take(i as int)),
                acc >= 0,
                total_b64_of(self@) <= i64::MAX,
            decreases n - i,
        {
            let nlen = self.committed[i].nonce.as_str().unicode_len();
            let clen = self.committed[i].ciphertext.as_str().unicode_len();
            proof {
                lemma_sum_prefix_bound_committed(self@.committed, i as int + 1);
                lemma_sum_staged_nonneg(self@.staged);
                assert(self@.committed.take(i as int + 1).drop_last() =~= self@.committed.take(
                    i as int,
                ));
                assert(self@.committed.take(i as int + 1).last() == self@.committed[i as int]);
                assert(sum_committed(self@.committed.take(i as int + 1)) == acc + rec_size(
                    self@.committed[i as int],
                ));
                assert(rec_size(self@.committed[i as int]) == nlen + clen);
            }
            acc = acc + (nlen as i64) + (clen as i64);
            i = i + 1;
        }
        proof {
            assert(self@.committed.take(n as int) =~= self@.committed);
        }
        let m = self.staged.len();
        let mut j: usize = 0;
        while j < m
            invariant
                0 <= j <= m,
                m == self.staged.len(),
                acc == sum_committed(self@.committed) + sum_staged(self@.staged.take(j as int)),
                acc >= 0,
                total_b64_of(self@) <= i64::MAX,
            decreases m - j,
        {
            let nlen = self.staged[j].nonce.as_str().unicode_len();
            let clen = self.staged[j].ciphertext.as_str().unicode_len();
            proof {
                lemma_sum_prefix_bound_staged(self@.staged, j as int + 1);
                lemma_sum_committed_nonneg(self@.committed);
                assert(self@.staged.take(j as int + 1).drop_last() =~= self@.staged.take(j as int));
                assert(self@.staged.take(j as int + 1).last() == self@.staged[j as int]);
                assert(sum_staged(self@.staged.take(j as int + 1)) == acc - sum_committed(
                    self@.committed,
                ) + staged_size(self@.staged[j as int]));
                assert(staged_size(self@.staged[j as int]) == nlen + clen);
            }
            acc = acc + (nlen as i64) + (clen as i64);
            j = j + 1;
        }
        proof {
            assert(self@.staged.take(m as int) =~= self@.staged);
        }
        acc
    }
}

/// A prefix sum never exceeds the whole sum, all summands being
/// non-negative.
pub proof fn lemma_sum_prefix_bound_committed(s: Seq<CommittedView>, i: int)
    requires
        0 <= i <= s.len(),
    ensures
        sum_committed(s.take(i)) <= sum_committed(s),
    decreases s.len() - i,
{
    if i < s.len() {
        lemma_sum_prefix_bound_committed(s, i + 1);
        assert(s.take(i + 1).drop_last() =~= s.take(i));
        assert(s.take(i + 1).last() == s[i]);
    } else {
        assert(s.take(i) =~= s);
    }
}

/// Staged analogue of `lemma_sum_prefix_bound_committed`.
pub proof fn lemma_sum_prefix_bound_staged(s: Seq<StagedView>, i: int)
    requires
        0 <= i <= s.len(),
    ensures
        sum_staged(s.take(i)) <= sum_staged(s),
    decreases s.len() - i,
{
    if i < s.len() {
        lemma_sum_prefix_bound_staged(s, i + 1);
        assert(s.take(i + 1).drop_last() =~= s.take(i));
        assert(s.take(i + 1).last() == s[i]);
    } else {
        assert(s.take(i) =~= s);
    }
}

} // verus!
