//! The push handler: per-envelope admission into the committed or staged
//! store, commit-marker processing, and the batch orchestration.

use vstd::prelude::*;

use crate::attach::{
    chunk_of_pred, committed_chunk_ids, committed_ok, has_key_c, last_colon, spec_commit_staged,
    spec_compact_ids, staged_keep_pred,
};
use crate::hlc::hlc_newer;
use crate::records::{
    att_type, chunk_type, commit_type, env_size, is_stageable_type, rec_size, staged_belongs_to,
    staged_size, sum_committed, sum_staged, CommittedView, EnvelopeView, StagedView,
    SyncRecordEnvelope,
};
use crate::store::{
    c_key_match, find_committed, find_staged, keys_wf, lemma_find_committed_from,
    lemma_find_staged_from, s_key_match, spec_upsert_committed, spec_upsert_staged, total_b64_of,
    StateView, SyncState,
};
use crate::MAX_RECORD_B64_LEN;

verus! {

/// Why an envelope was rejected.
#[derive(Debug, Clone, Copy, PartialEq, Eq, Structural)]
pub enum RejectReason {
    RecordTooLarge,
    OlderHlc,
    AttachmentDeleted,
    QuotaExceeded,
    MissingAttachmentMeta,
}

impl RejectReason {
    /// The wire word for this reason.
    pub fn as_str(&self) -> (r: &'static str)
        ensures
            r@ == (match *self {
                RejectReason::RecordTooLarge => "record_too_large"@,
                RejectReason::OlderHlc => "older_hlc"@,
                RejectReason::AttachmentDeleted => "attachment_deleted"@,
                RejectReason::QuotaExceeded => "quota_exceeded"@,
                RejectReason::MissingAttachmentMeta => "missing_attachment_meta"@,
            }),
    {
        match *self {
            RejectReason::RecordTooLarge => "record_too_large",
            RejectReason::OlderHlc => "older_hlc",
            RejectReason::AttachmentDeleted => "attachment_deleted",
            RejectReason::QuotaExceeded => "quota_exceeded",
            RejectReason::MissingAttachmentMeta => "missing_attachment_meta",
        }
    }
}

/// What one envelope produced: a committed or staged write (with the
/// sequence number reported to the client, 0 for staged-only effects), a
/// rejection, or deferral to the commit-marker pass.
#[derive(Debug, Clone, Copy, PartialEq, Eq, Structural)]
pub enum PushStepOutcome {
    Accepted { server_seq: i64 },
    Rejected { reason: RejectReason },
    Deferred,
}

/// The attachment id owning a stageable envelope: the record id itself
/// for metadata, the part before the last colon for a chunk.
pub open spec fn owner_attachment_id(e: EnvelopeView) -> Option<Seq<char>> {
    if e.rtype == att_type() {
        Some(e.rid)
    } else {
        match last_colon(e.rid) {
            Some(i) => Some(e.rid.take(i)),
            None => None,
        }
    }
}

/// Does the committed store hold a tombstoned metadata row for this
/// attachment?
pub open spec fn committed_attachment_deleted(st: StateView, aid: Seq<char>) -> bool {
    match find_committed(st.committed, att_type(), aid) {
        Some(i) => st.committed[i].deleted_at is Some,
        None => false,
    }
}

/// The stamp of the prior version of this envelope's record: the
/// committed row if one exists, else (for stageable envelopes) the staged
/// row.
pub open spec fn prior_hlc(st: StateView, e: EnvelopeView) -> Option<crate::hlc::HlcView> {
    match find_committed(st.committed, e.rtype, e.rid) {
        Some(i) => Some(st.committed[i].hlc),
        None => if is_stageable_type(e.rtype) {
            match find_staged(st.staged, e.rtype, e.rid) {
                Some(j) => Some(st.staged[j].hlc),
                None => None,
            }
        } else {
            None
        },
    }
}

/// The stored size of the prior version, 0 when there is none.
pub open spec fn prior_size(st: StateView, e: EnvelopeView) -> int {
    match find_committed(st.committed, e.rtype, e.rid) {
        Some(i) => rec_size(st.committed[i]),
        None => if is_stageable_type(e.rtype) {
            match find_staged(st.staged, e.rtype, e.rid) {
                Some(j) => staged_size(st.staged[j]),
                None => 0,
            }
        } else {
            0
        },
    }
}

/// The committed row an accepted envelope becomes.
pub open spec fn committed_of_env(e: EnvelopeView, seq: i64, now: i64) -> CommittedView {
    CommittedView {
        rtype: e.rtype,
        rid: e.rid,
        hlc: e.hlc,
        deleted_at: e.deleted_at,
        schema: e.schema,
        dek: e.dek,
        algo: e.algo,
        nonce: e.nonce,
        ciphertext: e.ciphertext,
        seq,
        updated_at: now,
    }
}

/// The staged row a stageable envelope becomes.
pub open spec fn staged_of_env(e: EnvelopeView, now: i64) -> StagedView {
    StagedView {
        rtype: e.rtype,
        rid: e.rid,
        hlc: e.hlc,
        deleted_at: e.deleted_at,
        schema: e.schema,
        dek: e.dek,
        algo: e.algo,
        nonce: e.nonce,
        ciphertext: e.ciphertext,
        updated_at: now,
    }
}

pub open spec fn max_i(a: int, b: int) -> int {
    if a >= b {
        a
    } else {
        b
    }
}

/// Admission of one regular or stageable envelope, mirroring the stored
/// state, the running storage tally and the running row count. Commit
/// markers are deferred; everything else is decided here: the size cap,
/// the deleted-attachment guard, the HLC gate, the pre-commit tombstone
/// shortcut, the quota checks, and the routing to the staged or committed
/// store with tombstone compaction for committed attachment deletes.
pub open spec fn spec_push_one(
    st: StateView,
    total: int,
    count: int,
    e: EnvelopeView,
    max_records: Option<i64>,
    max_storage: Option<i64>,
    now: i64,
) -> (StateView, int, int, PushStepOutcome) {
    if e.nonce.len() > MAX_RECORD_B64_LEN || e.ciphertext.len() > MAX_RECORD_B64_LEN {
        (st, total, count, PushStepOutcome::Rejected { reason: RejectReason::RecordTooLarge })
    } else if e.rtype == commit_type() {
        (st, total, count, PushStepOutcome::Deferred)
    } else {
        let stageable = is_stageable_type(e.rtype);
        let guard_hit = stageable && e.deleted_at is None && (match owner_attachment_id(e) {
            Some(aid) => committed_attachment_deleted(st, aid),
            None => false,
        });
        if guard_hit {
            (
                st,
                total,
                count,
                PushStepOutcome::Rejected { reason: RejectReason::AttachmentDeleted },
            )
        } else {
            let exists_c = find_committed(st.committed, e.rtype, e.rid) is Some;
            let exists_s = !exists_c && stageable && find_staged(st.staged, e.rtype, e.rid)
                is Some;
            let hlc_ok = match prior_hlc(st, e) {
                Some(h) => hlc_newer(e.hlc, h),
                None => true,
            };
            if !hlc_ok {
                (st, total, count, PushStepOutcome::Rejected { reason: RejectReason::OlderHlc })
            } else if stageable && e.deleted_at is Some && !exists_c {
                if e.rtype == att_type() {
                    let staged2 = st.staged.filter(staged_keep_pred(e.rid));
                    let cnt = st.staged.len() - staged2.len();
                    let bytes = sum_staged(st.staged) - sum_staged(staged2);
                    let total2 = if cnt > 0 {
                        max_i(total - bytes, 0)
                    } else {
                        total
                    };
                    let count2 = if cnt > 0 {
                        max_i(count - cnt, 0)
                    } else {
                        count
                    };
                    (
                        StateView { staged: staged2, ..st },
                        total2,
                        count2,
                        PushStepOutcome::Accepted { server_seq: 0 },
                    )
                } else {
                    if exists_s {
                        let j = find_staged(st.staged, e.rtype, e.rid).unwrap();
                        (
                            StateView { staged: st.staged.remove(j), ..st },
                            max_i(total - staged_size(st.staged[j]), 0),
                            max_i(count - 1, 0),
                            PushStepOutcome::Accepted { server_seq: 0 },
                        )
                    } else {
                        (st, total, count, PushStepOutcome::Accepted { server_seq: 0 })
                    }
                }
            } else {
                let new_total = total + env_size(e) - prior_size(st, e);
                let new_count = count + (if !exists_c && !exists_s {
                    1int
                } else {
                    0int
                });
                let over_records = match max_records {
                    Some(m) => new_count > m,
                    None => false,
                };
                let over_storage = match max_storage {
                    Some(m) => new_total > m && new_total > total,
                    None => false,
                };
                if over_records || over_storage {
                    (
                        st,
                        total,
                        count,
                        PushStepOutcome::Rejected { reason: RejectReason::QuotaExceeded },
                    )
                } else if stageable && !exists_c {
                    (
                        StateView {
                            staged: spec_upsert_staged(st.staged, staged_of_env(e, now)),
                            ..st
                        },
                        new_total,
                        new_count,
                        PushStepOutcome::Accepted { server_seq: 0 },
                    )
                } else {
                    let seq = (st.next_seq + 1) as i64;
                    let st1 = StateView {
                        committed: spec_upsert_committed(st.committed, committed_of_env(e, seq, now)),
                        next_seq: seq,
                        ..st
                    };
                    if e.rtype == att_type() && e.deleted_at is Some {
                        let st2 = StateView {
                            staged: st1.staged.filter(staged_keep_pred(e.rid)),
                            ..st1
                        };
                        let pr = spec_compact_ids(
                            st2.committed,
                            st2.next_seq,
                            committed_chunk_ids(st2.committed, e.rid),
                            e.deleted_at.unwrap(),
                            now,
                        );
                        (
                            StateView { committed: pr.0, next_seq: pr.1, ..st2 },
                            new_total,
                            new_count,
                            PushStepOutcome::Accepted { server_seq: seq },
                        )
                    } else {
                        (st1, new_total, new_count, PushStepOutcome::Accepted { server_seq: seq })
                    }
                }
            }
        }
    }
}

/// HLC gate (law): when a prior version of the record exists and the
/// incoming stamp is not strictly newer, the envelope is rejected
/// `older_hlc` and nothing changes; in particular the stored row stays.
pub proof fn lemma_push_hlc_gate(
    st: StateView,
    total: int,
    count: int,
    e: EnvelopeView,
    max_records: Option<i64>,
    max_storage: Option<i64>,
    now: i64,
)
    requires
        e.nonce.len() <= MAX_RECORD_B64_LEN,
        e.ciphertext.len() <= MAX_RECORD_B64_LEN,
        e.rtype != commit_type(),
        !(is_stageable_type(e.rtype) && e.deleted_at is None && (match owner_attachment_id(e) {
            Some(aid) => committed_attachment_deleted(st, aid),
            None => false,
        })),
        prior_hlc(st, e) is Some,
        !hlc_newer(e.hlc, prior_hlc(st, e).unwrap()),
    ensures
        spec_push_one(st, total, count, e, max_records, max_storage, now) == (
            st,
            total,
            count,
            PushStepOutcome::Rejected { reason: RejectReason::OlderHlc },
        ),
{
}

/// Pushing the same stamp twice is rejected: the HLC order is strict, so
/// an envelope whose stamp equals the stored one never wins.
pub proof fn lemma_push_equal_hlc_rejected(
    st: StateView,
    total: int,
    count: int,
    e: EnvelopeView,
    max_records: Option<i64>,
    max_storage: Option<i64>,
    now: i64,
)
    requires
        e.nonce.len() <= MAX_RECORD_B64_LEN,
        e.ciphertext.len() <= MAX_RECORD_B64_LEN,
        e.rtype != commit_type(),
        !(is_stageable_type(e.rtype) && e.deleted_at is None && (match owner_attachment_id(e) {
            Some(aid) => committed_attachment_deleted(st, aid),
            None => false,
        })),
        prior_hlc(st, e) == Some(e.hlc),
    ensures
        spec_push_one(st, total, count, e, max_records, max_storage, now) == (
            st,
            total,
            count,
            PushStepOutcome::Rejected { reason: RejectReason::OlderHlc },
        ),
{
    crate::hlc::lemma_hlc_newer_irreflexive(e.hlc);
}

/// Attachment resurrection is impossible (law): once the committed
/// metadata row of an attachment carries a tombstone, any stageable push
/// for that attachment without a tombstone is rejected
/// `attachment_deleted` and nothing changes.
pub proof fn lemma_push_no_resurrection(
    st: StateView,
    total: int,
    count: int,
    e: EnvelopeView,
    max_records: Option<i64>,
    max_storage: Option<i64>,
    now: i64,
    aid: Seq<char>,
)
    requires
        e.nonce.len() <= MAX_RECORD_B64_LEN,
        e.ciphertext.len() <= MAX_RECORD_B64_LEN,
        is_stageable_type(e.rtype),
        e.deleted_at is None,
        owner_attachment_id(e) == Some(aid),
        committed_attachment_deleted(st, aid),
    ensures
        spec_push_one(st, total, count, e, max_records, max_storage, now) == (
            st,
            total,
            count,
            PushStepOutcome::Rejected { reason: RejectReason::AttachmentDeleted },
        ),
{
    crate::records::lemma_types_distinct();
}

/// Over-quota deletes are allowed (law): an envelope that strictly
/// decreases the stored bytes, addressed to an existing record, is never
/// rejected `quota_exceeded`, provided the record count is not already
/// above the configured cap.
pub proof fn lemma_push_shrink_allowed(
    st: StateView,
    total: int,
    count: int,
    e: EnvelopeView,
    max_records: Option<i64>,
    max_storage: Option<i64>,
    now: i64,
)
    requires
        prior_hlc(st, e) is Some,
        env_size(e) < prior_size(st, e),
        match max_records {
            Some(m) => count <= m,
            None => true,
        },
    ensures
        !(spec_push_one(st, total, count, e, max_records, max_storage, now).3
            == PushStepOutcome::Rejected { reason: RejectReason::QuotaExceeded }),
{
}

/// A row's size never exceeds the store's sum.
pub proof fn lemma_rec_size_le_sum(s: Seq<CommittedView>, i: int)
    requires
        0 <= i < s.len(),
    ensures
        rec_size(s[i]) <= sum_committed(s),
{
    crate::records::lemma_sum_committed_remove(s, i);
    crate::records::lemma_sum_committed_nonneg(s.remove(i));
}

/// A staged row's size never exceeds the staging store's sum.
pub proof fn lemma_staged_size_le_sum(s: Seq<StagedView>, i: int)
    requires
        0 <= i < s.len(),
    ensures
        staged_size(s[i]) <= sum_staged(s),
{
    crate::records::lemma_sum_staged_remove(s, i);
    crate::records::lemma_sum_staged_nonneg(s.remove(i));
}

/// Dropping an attachment's staged rows preserves the key invariant.
pub proof fn lemma_staged_filter_keys_wf(st: StateView, aid: Seq<char>)
    requires
        keys_wf(st),
    ensures
        keys_wf(StateView { staged: st.staged.filter(staged_keep_pred(aid)), ..st }),
{
    let kept = st.staged.filter(staged_keep_pred(aid));
    crate::attach::lemma_filter_embedding(st.staged, staged_keep_pred(aid));
    st.staged.filter_lemma(staged_keep_pred(aid));
    assert forall|i: int, j: int|
        0 <= i < kept.len() && 0 <= j < kept.len() && i != j implies !s_key_match(
        #[trigger] kept[i],
        (#[trigger] kept[j]).rtype,
        kept[j].rid,
    ) by {
        if i < j {
            let (u1, u2) = choose|u1: int, u2: int|
                0 <= u1 < u2 < st.staged.len() && kept[i] == st.staged[u1] && kept[j]
                    == st.staged[u2];
            assert(!s_key_match(st.staged[u1], st.staged[u2].rtype, st.staged[u2].rid));
        } else {
            let (u1, u2) = choose|u1: int, u2: int|
                0 <= u1 < u2 < st.staged.len() && kept[j] == st.staged[u1] && kept[i]
                    == st.staged[u2];
            assert(!s_key_match(st.staged[u2], st.staged[u1].rtype, st.staged[u1].rid));
        }
    }
    assert forall|i: int| 0 <= i < kept.len() implies is_stageable_type(
        (#[trigger] kept[i]).rtype,
    ) by {
        let u = choose|u: int| 0 <= u < st.staged.len() && kept[i] == st.staged[u];
        assert(is_stageable_type(st.staged[u].rtype));
    }
    assert forall|i: int, j: int|
        0 <= i < st.committed.len() && 0 <= j < kept.len() implies !c_key_match(
        #[trigger] st.committed[i],
        (#[trigger] kept[j]).rtype,
        kept[j].rid,
    ) by {
        let u = choose|u: int| 0 <= u < st.staged.len() && kept[j] == st.staged[u];
        assert(!c_key_match(st.committed[i], st.staged[u].rtype, st.staged[u].rid));
    }
}

/// Removing one staged row preserves the key invariant.
pub proof fn lemma_staged_remove_keys_wf(st: StateView, j: int)
    requires
        keys_wf(st),
        0 <= j < st.staged.len(),
    ensures
        keys_wf(StateView { staged: st.staged.remove(j), ..st }),
{
    st.staged.remove_ensures(j);
    let out = st.staged.remove(j);
    assert forall|a: int, b: int|
        0 <= a < out.len() && 0 <= b < out.len() && a != b implies !s_key_match(
        #[trigger] out[a],
        (#[trigger] out[b]).rtype,
        out[b].rid,
    ) by {
        let ua = if a < j {
            a
        } else {
            a + 1
        };
        let ub = if b < j {
            b
        } else {
            b + 1
        };
        assert(out[a] == st.staged[ua] && out[b] == st.staged[ub]);
        assert(!s_key_match(st.staged[ua], st.staged[ub].rtype, st.staged[ub].rid));
    }
    assert forall|a: int| 0 <= a < out.len() implies is_stageable_type(
        (#[trigger] out[a]).rtype,
    ) by {
        let ua = if a < j {
            a
        } else {
            a + 1
        };
        assert(out[a] == st.staged[ua]);
    }
    assert forall|i: int, b: int|
        0 <= i < st.committed.len() && 0 <= b < out.len() implies !c_key_match(
        #[trigger] st.committed[i],
        (#[trigger] out[b]).rtype,
        out[b].rid,
    ) by {
        let ub = if b < j {
            b
        } else {
            b + 1
        };
        assert(out[b] == st.staged[ub]);
        assert(!c_key_match(st.committed[i], st.staged[ub].rtype, st.staged[ub].rid));
    }
}

/// Upserting a stageable row whose key is absent from the committed store
/// preserves the key invariant.
pub proof fn lemma_upsert_staged_keys_wf(st: StateView, row: StagedView)
    requires
        keys_wf(st),
        is_stageable_type(row.rtype),
        find_committed(st.committed, row.rtype, row.rid) is None,
    ensures
        keys_wf(StateView { staged: spec_upsert_staged(st.staged, row), ..st }),
{
    lemma_find_committed_from(st.committed, row.rtype, row.rid, 0);
    lemma_find_staged_from(st.staged, row.rtype, row.rid, 0);
    let out = spec_upsert_staged(st.staged, row);
    match find_staged(st.staged, row.rtype, row.rid) {
        Some(i) => {
            st.staged.remove_ensures(i);
            let base = st.staged.remove(i);
            assert forall|a: int, b: int|
                0 <= a < out.len() && 0 <= b < out.len() && a != b implies !s_key_match(
                #[trigger] out[a],
                (#[trigger] out[b]).rtype,
                out[b].rid,
            ) by {
                if a < out.len() - 1 && b < out.len() - 1 {
                    let ua = if a < i {
                        a
                    } else {
                        a + 1
                    };
                    let ub = if b < i {
                        b
                    } else {
                        b + 1
                    };
                    assert(out[a] == st.staged[ua] && out[b] == st.staged[ub]);
                    assert(!s_key_match(st.staged[ua], st.staged[ub].rtype, st.staged[ub].rid));
                } else if a < out.len() - 1 {
                    let ua = if a < i {
                        a
                    } else {
                        a + 1
                    };
                    assert(out[a] == st.staged[ua]);
                    assert(out[b] == row);
                    if s_key_match(out[a], row.rtype, row.rid) {
                        assert(s_key_match(st.staged[ua], st.staged[i].rtype, st.staged[i].rid));
                    }
                } else {
                    let ub = if b < i {
                        b
                    } else {
                        b + 1
                    };
                    assert(out[a] == row);
                    assert(out[b] == st.staged[ub]);
                    if s_key_match(out[a], out[b].rtype, out[b].rid) {
                        assert(s_key_match(st.staged[ub], st.staged[i].rtype, st.staged[i].rid));
                    }
                }
            }
            assert forall|a: int| 0 <= a < out.len() implies is_stageable_type(
                (#[trigger] out[a]).rtype,
            ) by {
                if a < out.len() - 1 {
                    let ua = if a < i {
                        a
                    } else {
                        a + 1
                    };
                    assert(out[a] == st.staged[ua]);
                }
            }
            assert forall|c: int, b: int|
                0 <= c < st.committed.len() && 0 <= b < out.len() implies !c_key_match(
                #[trigger] st.committed[c],
                (#[trigger] out[b]).rtype,
                out[b].rid,
            ) by {
                if b < out.len() - 1 {
                    let ub = if b < i {
                        b
                    } else {
                        b + 1
                    };
                    assert(out[b] == st.staged[ub]);
                    assert(!c_key_match(st.committed[c], st.staged[ub].rtype, st.staged[ub].rid));
                } else {
                    assert(out[b] == row);
                }
            }
        },
        None => {
            assert forall|a: int, b: int|
                0 <= a < out.len() && 0 <= b < out.len() && a != b implies !s_key_match(
                #[trigger] out[a],
                (#[trigger] out[b]).rtype,
                out[b].rid,
            ) by {
                if a < out.len() - 1 && b < out.len() - 1 {
                    assert(out[a] == st.staged[a] && out[b] == st.staged[b]);
                    assert(!s_key_match(st.staged[a], st.staged[b].rtype, st.staged[b].rid));
                } else if a < out.len() - 1 {
                    assert(out[a] == st.staged[a] && out[b] == row);
                } else {
                    assert(out[a] == row && out[b] == st.staged[b]);
                }
            }
            assert forall|a: int| 0 <= a < out.len() implies is_stageable_type(
                (#[trigger] out[a]).rtype,
            ) by {
                if a < out.len() - 1 {
                    assert(out[a] == st.staged[a]);
                }
            }
            assert forall|c: int, b: int|
                0 <= c < st.committed.len() && 0 <= b < out.len() implies !c_key_match(
                #[trigger] st.committed[c],
                (#[trigger] out[b]).rtype,
                out[b].rid,
            ) by {
                if b < out.len() - 1 {
                    assert(out[b] == st.staged[b]);
                }
            }
        },
    }
}

/// Upserting into the committed store a row whose key either already sits
/// there or is of a non-stageable type preserves the key invariant.
pub proof fn lemma_commit_route_keys_wf(st: StateView, row: CommittedView)
    requires
        keys_wf(st),
        row.seq == st.next_seq + 1,
        find_committed(st.committed, row.rtype, row.rid) is Some || !is_stageable_type(row.rtype),
    ensures
        keys_wf(
            StateView {
                committed: spec_upsert_committed(st.committed, row),
                next_seq: row.seq,
                ..st
            },
        ),
{
    crate::attach::lemma_upsert_fresh_preserves(st.committed, st.next_seq, row);
    lemma_find_committed_from(st.committed, row.rtype, row.rid, 0);
    let out = spec_upsert_committed(st.committed, row);
    assert forall|i: int, j: int|
        0 <= i < out.len() && 0 <= j < st.staged.len() implies !c_key_match(
        #[trigger] out[i],
        (#[trigger] st.staged[j]).rtype,
        st.staged[j].rid,
    ) by {
        if c_key_match(out[i], st.staged[j].rtype, st.staged[j].rid) {
            if c_key_match(out[i], row.rtype, row.rid) {
                match find_committed(st.committed, row.rtype, row.rid) {
                    Some(m) => {
                        assert(c_key_match(st.committed[m], st.staged[j].rtype, st.staged[j].rid));
                    },
                    None => {
                        assert(is_stageable_type(st.staged[j].rtype));
                    },
                }
            } else {
                let m = choose|m: int|
                    0 <= m < st.committed.len() && c_key_match(
                        out[i],
                        (#[trigger] st.committed[m]).rtype,
                        st.committed[m].rid,
                    );
                assert(c_key_match(st.committed[m], st.staged[j].rtype, st.staged[j].rid));
            }
        }
    }
}

/// Compaction never increases the committed store's stored bytes.
pub proof fn lemma_compact_sum_le(
    c: Seq<CommittedView>,
    next: i64,
    ids: Seq<Seq<char>>,
    del: i64,
    now: i64,
)
    ensures
        sum_committed(spec_compact_ids(c, next, ids, del, now).0) <= sum_committed(c),
        spec_compact_ids(c, next, ids, del, now).0.len() == c.len(),
    decreases ids.len(),
{
    if ids.len() > 0 {
        let dl = ids.drop_last();
        lemma_compact_sum_le(c, next, dl, del, now);
        let prev = spec_compact_ids(c, next, dl, del, now);
        let id = ids.last();
        crate::store::lemma_find_committed_from(prev.0, chunk_type(), id, 0);
        match find_committed(prev.0, chunk_type(), id) {
            None => {},
            Some(i) => {
                if !crate::attach::is_compacted(prev.0[i]) {
                    let tomb = crate::attach::tombstone_of(prev.0[i], (prev.1 + 1) as i64, del, now);
                    crate::records::lemma_sum_committed_remove(prev.0, i);
                    crate::records::lemma_sum_committed_push(prev.0.remove(i), tomb);
                }
            },
        }
    }
}

/// Find the owning attachment id of a chunk record id: the part before
/// the last colon.
pub fn owner_prefix(record_id: &str) -> (r: Option<String>)
    ensures
        match last_colon(record_id@) {
            Some(i) => r is Some && r.unwrap()@ == record_id@.take(i),
            None => r is None,
        },
{
    let len = record_id.unicode_len();
    let mut col: usize = len;
    let mut found = false;
    while col > 0 && !found
        invariant
            0 <= col <= len,
            len == record_id@.len(),
            !found ==> forall|i: int| col <= i < len ==> record_id@[i] != ':',
            found ==> 0 < col <= len && record_id@[col - 1] == ':' && forall|i: int|
                col <= i < len ==> record_id@[i] != ':',
        decreases col + (if found { 0int } else { 1int }),
    {
        if record_id.get_char(col - 1) == ':' {
            found = true;
        } else {
            col = col - 1;
        }
    }
    if !found {
        proof {
            crate::attach::lemma_last_colon_none(record_id@);
        }
        None
    } else {
        proof {
            crate::attach::lemma_last_colon_some(record_id@, col - 1);
        }
        let pre = record_id.substring_char(0, col - 1);
        proof {
            assert(pre@ =~= record_id@.take(col - 1));
        }
        Some(pre.to_owned())
    }
}

impl SyncState {
    /// Admit one envelope, updating the state and the running tallies,
    /// exactly as `spec_push_one` describes.
    pub fn push_one(
        &mut self,
        e: &SyncRecordEnvelope,
        total: i64,
        count: i64,
        max_records: Option<i64>,
        max_storage: Option<i64>,
        now_ms: i64,
    ) -> (r: (i64, i64, PushStepOutcome))
        requires
            keys_wf(old(self)@),
            total_b64_of(old(self)@) <= total,
            0 <= total,
            total + 1100000 <= i64::MAX,
            0 <= count,
            count < i64::MAX,
            old(self)@.staged.len() < i64::MAX,
            old(self)@.next_seq + old(self)@.committed.len() + 2 <= i64::MAX,
        ensures
            (final(self)@, r.0 as int, r.1 as int, r.2) == spec_push_one(
                old(self)@,
                total as int,
                count as int,
                e@,
                max_records,
                max_storage,
                now_ms,
            ),
            keys_wf(final(self)@),
            total_b64_of(final(self)@) <= r.0,
            0 <= r.0 <= total + 1100000,
            0 <= r.1 <= count + 1,
            final(self)@.committed.len() <= old(self)@.committed.len() + 1,
            final(self)@.staged.len() <= old(self)@.staged.len() + 1,
            final(self)@.committed.len() + final(self)@.staged.len() <= old(self)@.committed.len()
                + old(self)@.staged.len() + 1,
            final(self)@.next_seq <= old(self)@.next_seq + old(self)@.committed.len() + 2,
            old(self)@.next_seq <= final(self)@.next_seq,
            final(self)@.refs == old(self)@.refs,
            final(self)@.user == old(self)@.user,
    {
        proof {
            crate::records::lemma_sum_committed_nonneg(self@.committed);
            crate::records::lemma_sum_staged_nonneg(self@.staged);
        }
        let nonce_len = e.nonce.as_str().unicode_len();
        let ct_len = e.ciphertext.as_str().unicode_len();
        if nonce_len > MAX_RECORD_B64_LEN || ct_len > MAX_RECORD_B64_LEN {
            return (total, count, PushStepOutcome::Rejected { reason: RejectReason::RecordTooLarge });
        }
        if crate::strutil::str_eq(e.record_type.as_str(), "todo_attachment_commit") {
            return (total, count, PushStepOutcome::Deferred);
        }
        let is_att = crate::strutil::str_eq(e.record_type.as_str(), "todo_attachment");
        let is_chunk = crate::strutil::str_eq(e.record_type.as_str(), "todo_attachment_chunk");
        let stageable = is_att || is_chunk;
        let att_s: String = "todo_attachment".to_owned();
        // Guard: no resurrection of a tombstoned attachment.
        if stageable && e.deleted_at_ms_utc.is_none() {
            let owner: Option<String> = if is_att {
                Some(e.record_id.clone())
            } else {
                owner_prefix(e.record_id.as_str())
            };
            match owner {
                Some(aid) => {
                    let midx = self.find_committed_idx(&att_s, &aid);
                    proof {
                        lemma_find_committed_from(self@.committed, att_type(), aid@, 0);
                    }
                    match midx {
                        Some(i) => {
                            if self.committed[i].deleted_at_ms_utc.is_some() {
                                proof {
                                    assert(committed_attachment_deleted(self@, aid@));
                                    assert(owner_attachment_id(e@) == Some(aid@));
                                }
                                return (
                                    total,
                                    count,
                                    PushStepOutcome::Rejected {
                                        reason: RejectReason::AttachmentDeleted,
                                    },
                                );
                            }
                        },
                        None => {},
                    }
                },
                None => {},
            }
        }
        proof {
            assert(!(is_stageable_type(e@.rtype) && e@.deleted_at is None && (
            match owner_attachment_id(e@) {
                Some(aid) => committed_attachment_deleted(old(self)@, aid),
                None => false,
            })));
        }
        let cidx = self.find_committed_idx(&e.record_type, &e.record_id);
        proof {
            lemma_find_committed_from(self@.committed, e@.rtype, e@.rid, 0);
        }
        let sidx: Option<usize> = if cidx.is_none() && stageable {
            let r = self.find_staged_idx(&e.record_type, &e.record_id);
            proof {
                lemma_find_staged_from(self@.staged, e@.rtype, e@.rid, 0);
            }
            r
        } else {
            None
        };
        let exists_c = cidx.is_some();
        let exists_s = sidx.is_some();
        // HLC gate.
        let hlc_ok: bool = match cidx {
            Some(i) => crate::hlc::hlc_is_newer(&e.hlc, &self.committed[i].hlc),
            None => match sidx {
                Some(j) => crate::hlc::hlc_is_newer(&e.hlc, &self.staged[j].hlc),
                None => true,
            },
        };
        if !hlc_ok {
            return (total, count, PushStepOutcome::Rejected { reason: RejectReason::OlderHlc });
        }
        let existing_size: i64 = match cidx {
            Some(i) => {
                proof {
                    lemma_rec_size_le_sum(self@.committed, i as int);
                }
                let a = self.committed[i].nonce.as_str().unicode_len();
                let b = self.committed[i].ciphertext.as_str().unicode_len();
                (a as i64) + (b as i64)
            },
            None => match sidx {
                Some(j) => {
                    proof {
                        lemma_staged_size_le_sum(self@.staged, j as int);
                    }
                    let a = self.staged[j].nonce.as_str().unicode_len();
                    let b = self.staged[j].ciphertext.as_str().unicode_len();
                    (a as i64) + (b as i64)
                },
                None => 0,
            },
        };
        proof {
            assert(existing_size == prior_size(old(self)@, e@));
            assert(existing_size <= total_b64_of(old(self)@));
        }
        // Pre-commit tombstone shortcut.
        if stageable && e.deleted_at_ms_utc.is_some() && !exists_c {
            if is_att {
                let (cnt, bytes) = self.delete_staged_attachment(&e.record_id);
                let total2: i64 = if cnt > 0 {
                    if total - bytes >= 0 {
                        total - bytes
                    } else {
                        0
                    }
                } else {
                    total
                };
                let count2: i64 = if cnt > 0 {
                    if count - cnt >= 0 {
                        count - cnt
                    } else {
                        0
                    }
                } else {
                    count
                };
                proof {
                    lemma_staged_filter_keys_wf(old(self)@, e@.rid);
                    crate::attach::lemma_sum_filter_le(old(self)@.staged, staged_keep_pred(e@.rid));
                }
                return (total2, count2, PushStepOutcome::Accepted { server_seq: 0 });
            }
            match sidx {
                Some(j) => {
                    let ghost jv = j as int;
                    let a = self.staged[j].nonce.as_str().unicode_len();
                    let b = self.staged[j].ciphertext.as_str().unicode_len();
                    let sz: i64 = (a as i64) + (b as i64);
                    proof {
                        self@.staged.remove_ensures(jv);
                        self.staged@.remove_ensures(jv);
                        crate::records::lemma_sum_staged_remove(self@.staged, jv);
                        lemma_staged_remove_keys_wf(old(self)@, jv);
                    }
                    self.staged.remove(j);
                    proof {
                        assert(final(self)@ =~= (StateView {
                            staged: old(self)@.staged.remove(jv),
                            ..old(self)@
                        }));
                    }
                    let total2: i64 = if total - sz >= 0 {
                        total - sz
                    } else {
                        0
                    };
                    let count2: i64 = if count - 1 >= 0 {
                        count - 1
                    } else {
                        0
                    };
                    return (total2, count2, PushStepOutcome::Accepted { server_seq: 0 });
                },
                None => {
                    return (total, count, PushStepOutcome::Accepted { server_seq: 0 });
                },
            }
        }
        let new_size: i64 = (nonce_len as i64) + (ct_len as i64);
        let new_total: i64 = total + new_size - existing_size;
        let new_count: i64 = count + (if !exists_c && !exists_s {
            1
        } else {
            0
        });
        match max_records {
            Some(m) => if new_count > m {
                return (
                    total,
                    count,
                    PushStepOutcome::Rejected { reason: RejectReason::QuotaExceeded },
                );
            },
            None => {},
        }
        match max_storage {
            Some(m) => if new_total > m && new_total > total {
                return (
                    total,
                    count,
                    PushStepOutcome::Rejected { reason: RejectReason::QuotaExceeded },
                );
            },
            None => {},
        }
        if stageable && !exists_c {
            let row = e.to_staged(now_ms);
            proof {
                lemma_upsert_staged_keys_wf(old(self)@, row@);
                lemma_find_staged_from(old(self)@.staged, e@.rtype, e@.rid, 0);
                match find_staged(old(self)@.staged, e@.rtype, e@.rid) {
                    Some(j) => {
                        old(self)@.staged.remove_ensures(j);
                        crate::records::lemma_sum_staged_remove(old(self)@.staged, j);
                        crate::records::lemma_sum_staged_push(
                            old(self)@.staged.remove(j),
                            row@,
                        );
                    },
                    None => {
                        crate::records::lemma_sum_staged_push(old(self)@.staged, row@);
                    },
                }
            }
            self.upsert_staged(row);
            return (new_total, new_count, PushStepOutcome::Accepted { server_seq: 0 });
        }
        // Committed route.
        let seq = self.alloc_server_seq();
        let crow = e.to_committed(seq, now_ms);
        proof {
            assert(crow@ == committed_of_env(e@, (old(self)@.next_seq + 1) as i64, now_ms));
            lemma_commit_route_keys_wf(old(self)@, crow@);
            lemma_find_committed_from(old(self)@.committed, e@.rtype, e@.rid, 0);
            match find_committed(old(self)@.committed, e@.rtype, e@.rid) {
                Some(i) => {
                    old(self)@.committed.remove_ensures(i);
                    crate::records::lemma_sum_committed_remove(old(self)@.committed, i);
                    crate::records::lemma_sum_committed_push(
                        old(self)@.committed.remove(i),
                        crow@,
                    );
                },
                None => {
                    crate::records::lemma_sum_committed_push(old(self)@.committed, crow@);
                },
            }
        }
        self.upsert_committed(crow);
        if is_att && e.deleted_at_ms_utc.is_some() {
            let ghost st1 = self@;
            proof {
                lemma_staged_filter_keys_wf(st1, e@.rid);
                crate::attach::lemma_sum_filter_le(st1.staged, staged_keep_pred(e@.rid));
            }
            let _ = self.delete_staged_attachment(&e.record_id);
            let ghost st2 = self@;
            let deleted_at: i64 = match e.deleted_at_ms_utc {
                Some(d) => d,
                None => now_ms,
            };
            proof {
                lemma_compact_sum_le(
                    st2.committed,
                    st2.next_seq,
                    committed_chunk_ids(st2.committed, e@.rid),
                    deleted_at,
                    now_ms,
                );
                st2.committed.lemma_filter_len(crate::attach::committed_chunk_pred(e@.rid));
                assert(committed_ok(st2.committed, st2.next_seq));
                crate::attach::lemma_compact_ids_props(
                    st2.committed,
                    st2.next_seq,
                    committed_chunk_ids(st2.committed, e@.rid),
                    deleted_at,
                    now_ms,
                );
            }
            self.compact_committed_attachment_chunks(&e.record_id, deleted_at, now_ms);
            return (new_total, new_count, PushStepOutcome::Accepted { server_seq: seq });
        }
        (new_total, new_count, PushStepOutcome::Accepted { server_seq: seq })
    }
}

/// A batch-level error: the whole request fails with no state change.
#[derive(Debug, Clone, Copy, PartialEq, Eq, Structural)]
pub enum ApiError {
    TooManyRecords,
    Banned,
    QuotaExceeded,
    VersionConflict,
    NotFound,
}

/// One accepted envelope in the response.
#[derive(Debug)]
pub struct PushAccepted {
    pub record_type: String,
    pub record_id: String,
    pub server_seq: i64,
}

/// Mathematical value of an accepted entry.
#[verifier::ext_equal]
pub ghost struct AcceptedView {
    pub rtype: Seq<char>,
    pub rid: Seq<char>,
    pub seq: i64,
}

impl View for PushAccepted {
    type V = AcceptedView;

    open spec fn view(&self) -> AcceptedView {
        AcceptedView { rtype: self.record_type@, rid: self.record_id@, seq: self.server_seq }
    }
}

/// One rejected envelope in the response.
#[derive(Debug)]
pub struct PushRejected {
    pub record_type: String,
    pub record_id: String,
    pub reason: RejectReason,
}

/// Mathematical value of a rejected entry.
#[verifier::ext_equal]
pub ghost struct RejectedView {
    pub rtype: Seq<char>,
    pub rid: Seq<char>,
    pub reason: RejectReason,
}

impl View for PushRejected {
    type V = RejectedView;

    open spec fn view(&self) -> RejectedView {
        RejectedView { rtype: self.record_type@, rid: self.record_id@, reason: self.reason }
    }
}

/// The push response: which envelopes were accepted (with their sequence
/// numbers) and which were rejected (with the reason), in processing
/// order.
#[derive(Debug)]
pub struct PushResponse {
    pub accepted: Vec<PushAccepted>,
    pub rejected: Vec<PushRejected>,
}

/// A deferred commit marker.
#[verifier::ext_equal]
pub ghost struct CommitReqView {
    pub aid: Seq<char>,
    pub deleted_at: Option<i64>,
}

/// The accumulated effect of a batch prefix.
#[verifier::ext_equal]
pub ghost struct BatchAcc {
    pub st: StateView,
    pub total: int,
    pub count: int,
    pub accepted: Seq<AcceptedView>,
    pub rejected: Seq<RejectedView>,
    pub commits: Seq<CommitReqView>,
}

/// Fold one envelope into the batch accumulator.
pub open spec fn spec_push_env_acc(
    acc: BatchAcc,
    e: EnvelopeView,
    max_records: Option<i64>,
    max_storage: Option<i64>,
    now: i64,
) -> BatchAcc {
    let (st, t, c, out) = spec_push_one(acc.st, acc.total, acc.count, e, max_records, max_storage, now);
    match out {
        PushStepOutcome::Accepted { server_seq } => BatchAcc {
            st,
            total: t,
            count: c,
            accepted: acc.accepted.push(AcceptedView { rtype: e.rtype, rid: e.rid, seq: server_seq }),
            ..acc
        },
        PushStepOutcome::Rejected { reason } => BatchAcc {
            st,
            total: t,
            count: c,
            rejected: acc.rejected.push(RejectedView { rtype: e.rtype, rid: e.rid, reason }),
            ..acc
        },
        PushStepOutcome::Deferred => BatchAcc {
            st,
            total: t,
            count: c,
            commits: acc.commits.push(CommitReqView { aid: e.rid, deleted_at: e.deleted_at }),
            ..acc
        },
    }
}

/// Fold a run of envelopes.
pub open spec fn spec_push_envs(
    acc: BatchAcc,
    envs: Seq<EnvelopeView>,
    max_records: Option<i64>,
    max_storage: Option<i64>,
    now: i64,
) -> BatchAcc
    decreases envs.len(),
{
    if envs.len() == 0 {
        acc
    } else {
        spec_push_env_acc(
            spec_push_envs(acc, envs.drop_last(), max_records, max_storage, now),
            envs.last(),
            max_records,
            max_storage,
            now,
        )
    }
}

/// Process one deferred commit marker: a tombstoned marker is a client
/// cancellation and a no-op; a marker for a tombstoned attachment is
/// rejected; a marker with neither a live committed meta nor a staged
/// meta is rejected; otherwise the staged rows are committed.
pub open spec fn spec_push_commit_acc(acc: BatchAcc, cr: CommitReqView, now: i64) -> BatchAcc {
    if cr.deleted_at is Some {
        BatchAcc {
            accepted: acc.accepted.push(
                AcceptedView { rtype: commit_type(), rid: cr.aid, seq: 0 },
            ),
            ..acc
        }
    } else {
        let meta = find_committed(acc.st.committed, att_type(), cr.aid);
        let meta_deleted = match meta {
            Some(i) => acc.st.committed[i].deleted_at is Some,
            None => false,
        };
        if meta_deleted {
            BatchAcc {
                rejected: acc.rejected.push(
                    RejectedView {
                        rtype: commit_type(),
                        rid: cr.aid,
                        reason: RejectReason::AttachmentDeleted,
                    },
                ),
                ..acc
            }
        } else {
            let has_committed_meta = meta is Some;
            let has_staged_meta = find_staged(acc.st.staged, att_type(), cr.aid) is Some;
            if !has_committed_meta && !has_staged_meta {
                BatchAcc {
                    rejected: acc.rejected.push(
                        RejectedView {
                            rtype: commit_type(),
                            rid: cr.aid,
                            reason: RejectReason::MissingAttachmentMeta,
                        },
                    ),
                    ..acc
                }
            } else {
                BatchAcc {
                    st: spec_commit_staged(acc.st, cr.aid, now),
                    accepted: acc.accepted.push(
                        AcceptedView { rtype: commit_type(), rid: cr.aid, seq: 0 },
                    ),
                    ..acc
                }
            }
        }
    }
}

/// Fold the deferred commit markers.
pub open spec fn spec_push_commits(acc: BatchAcc, crs: Seq<CommitReqView>, now: i64) -> BatchAcc
    decreases crs.len(),
{
    if crs.len() == 0 {
        acc
    } else {
        spec_push_commit_acc(spec_push_commits(acc, crs.drop_last(), now), crs.last(), now)
    }
}

/// The whole effect of an admitted push batch on the stores: envelopes in
/// order, then the deferred commit markers in order.
pub open spec fn spec_push_batch(
    st: StateView,
    envs: Seq<EnvelopeView>,
    max_records: Option<i64>,
    max_storage: Option<i64>,
    now: i64,
) -> BatchAcc {
    let acc0 = BatchAcc {
        st,
        total: total_b64_of(st),
        count: crate::store::record_count_of(st),
        accepted: Seq::empty(),
        rejected: Seq::empty(),
        commits: Seq::empty(),
    };
    let acc1 = spec_push_envs(acc0, envs, max_records, max_storage, now);
    spec_push_commits(acc1, acc1.commits, now)
}

/// Configuration of the push handler.
#[derive(Debug)]
pub struct PushConfig {
    pub max_push_records: usize,
    pub max_records_per_user: Option<i64>,
}

/// Is this user banned?
pub open spec fn spec_banned(u: crate::store::UserView) -> bool {
    match u.banned_at {
        Some(b) => b > 0,
        None => false,
    }
}

/// The user row as every request sees it on entry: the monthly outbound
/// counter rolled over if the UTC month changed, and a stale subscription
/// cleared.
pub open spec fn spec_user_entry(u: crate::store::UserView, now: i64) -> crate::store::UserView {
    let u1 = if u.api_outbound_month_utc == crate::dates::spec_month_utc(now as int) {
        u
    } else {
        crate::store::UserView {
            api_outbound_bytes: 0,
            api_outbound_month_utc: crate::dates::spec_month_utc(now as int) as i64,
            ..u
        }
    };
    if crate::quota::spec_has_plan(u1) && (match u1.expires_at {
        Some(e) => e <= now,
        None => 0 <= now,
    }) {
        crate::store::UserView { plan_id: None, expires_at: None, ..u1 }
    } else {
        u1
    }
}

impl SyncState {
    /// The push handler: admit a batch of envelopes in one atomic step.
    ///
    /// On entry the monthly counter is rolled over and a stale
    /// subscription cleared; an oversized batch, a banned user, or a user
    /// already over the outbound allowance fails whole, changing nothing.
    /// Otherwise every envelope is admitted as `spec_push_one` describes,
    /// deferred commit markers are processed in order, and the user's
    /// `stored_b64` is set to the true stored total.
    #[verifier::rlimit(100)]
    pub fn push_sync(
        &mut self,
        billing: &crate::quota::BillingConfig,
        cfg: &PushConfig,
        envelopes: &Vec<SyncRecordEnvelope>,
        now_ms: i64,
    ) -> (r: Result<PushResponse, ApiError>)
        requires
            crate::store::wf(old(self)@),
            old(self)@.next_seq + 2400000000000000000 <= i64::MAX,
            old(self)@.committed.len() + old(self)@.staged.len() + envelopes@.len() < 1073741824,
            total_b64_of(old(self)@) + 1100000 * (envelopes@.len() + 1) <= i64::MAX,
        ensures
            r is Err ==> final(self)@ == old(self)@,
            (r == Result::<PushResponse, ApiError>::Err(ApiError::TooManyRecords)) <==> envelopes@.len()
                > cfg.max_push_records,
            envelopes@.len() <= cfg.max_push_records ==> ((r
                == Result::<PushResponse, ApiError>::Err(ApiError::Banned)) <==> spec_banned(
                old(self)@.user,
            )),
            (envelopes@.len() <= cfg.max_push_records && !spec_banned(old(self)@.user)) ==> {
                let u1 = spec_user_entry(old(self)@.user, now_ms);
                let q = crate::quota::spec_effective_quota(billing@, u1, now_ms);
                let over = match q.allowed_outbound_bytes {
                    Some(m) => u1.api_outbound_bytes > m,
                    None => false,
                };
                &&& ((r == Result::<PushResponse, ApiError>::Err(ApiError::QuotaExceeded)) <==> over)
                &&& (!over ==> r is Ok)
            },
            r is Ok ==> {
                let u1 = spec_user_entry(old(self)@.user, now_ms);
                let st1 = StateView { user: u1, ..old(self)@ };
                let q = crate::quota::spec_effective_quota(billing@, u1, now_ms);
                let b = spec_push_batch(
                    st1,
                    envelopes@.map_values(|e: SyncRecordEnvelope| e@),
                    cfg.max_records_per_user,
                    q.allowed_storage_b64,
                    now_ms,
                );
                &&& final(self)@ == (StateView {
                    user: crate::store::UserView {
                        stored_b64: total_b64_of(b.st) as i64,
                        ..b.st.user
                    },
                    ..b.st
                })
                &&& r.unwrap().accepted@.map_values(|a: PushAccepted| a@) == b.accepted
                &&& r.unwrap().rejected@.map_values(|a: PushRejected| a@) == b.rejected
                &&& crate::store::wf(final(self)@)
            },
    {
        if envelopes.len() > cfg.max_push_records {
            return Err(ApiError::TooManyRecords);
        }
        // Entry accounting on a scratch copy; committed only once the
        // batch is admitted.
        let mut user_entry = self.user.clone();
        user_entry.reset_outbound_if_new_month(now_ms);
        let _ = user_entry.clear_subscription_if_expired(now_ms);
        proof {
            assert(user_entry@ == spec_user_entry(old(self)@.user, now_ms));
        }
        let banned = match user_entry.banned_at_ms_utc {
            Some(b) => b > 0,
            None => false,
        };
        if banned {
            return Err(ApiError::Banned);
        }
        let quota = crate::quota::compute_effective_quota(billing, &user_entry, now_ms);
        match quota.allowed_outbound_bytes {
            Some(m) => if user_entry.api_outbound_bytes > m {
                return Err(ApiError::QuotaExceeded);
            },
            None => {},
        }
        self.user = user_entry;
        let ghost st1 = self@;
        let ghost envs = envelopes@.map_values(|e: SyncRecordEnvelope| e@);
        let ghost maxr = cfg.max_records_per_user;
        let ghost maxs = quota@.allowed_storage_b64;
        proof {
            assert(st1 =~= (StateView { user: spec_user_entry(old(self)@.user, now_ms), ..old(
                self,
            )@ }));
        }
        let mut total: i64 = self.compute_total_b64();
        let mut count: i64 = (self.committed.len() as i64) + (self.staged.len() as i64);
        let mut accepted: Vec<PushAccepted> = Vec::new();
        let mut rejected: Vec<PushRejected> = Vec::new();
        let mut commits: Vec<(String, Option<i64>)> = Vec::new();
        let ghost acc0 = BatchAcc {
            st: st1,
            total: total_b64_of(st1),
            count: crate::store::record_count_of(st1),
            accepted: Seq::empty(),
            rejected: Seq::empty(),
            commits: Seq::empty(),
        };
        let n = envelopes.len();
        let mut i: usize = 0;
        proof {
            assert(envs.take(0) =~= Seq::<EnvelopeView>::empty());
            assert(accepted@.map_values(|a: PushAccepted| a@) =~= acc0.accepted);
            assert(rejected@.map_values(|a: PushRejected| a@) =~= acc0.rejected);
            assert(commits@.map_values(|p: (String, Option<i64>)| CommitReqView {
                aid: p.0@,
                deleted_at: p.1,
            }) =~= acc0.commits);
        }
        while i < n
            invariant
                0 <= i <= n,
                n == envelopes@.len(),
                envs == envelopes@.map_values(|e: SyncRecordEnvelope| e@),
                maxr == cfg.max_records_per_user,
                maxs == quota@.allowed_storage_b64,
                acc0 == (BatchAcc {
                    st: st1,
                    total: total_b64_of(st1),
                    count: crate::store::record_count_of(st1),
                    accepted: Seq::<AcceptedView>::empty(),
                    rejected: Seq::<RejectedView>::empty(),
                    commits: Seq::<CommitReqView>::empty(),
                }),
                st1.committed.len() + st1.staged.len() + n < 1073741824,
                st1.next_seq + 2400000000000000000 <= i64::MAX,
                total_b64_of(st1) + 1100000 * (n + 1) <= i64::MAX,
                ({
                    let acc = spec_push_envs(acc0, envs.take(i as int), maxr, maxs, now_ms);
                    &&& self@ == acc.st
                    &&& total == acc.total
                    &&& count == acc.count
                    &&& accepted@.map_values(|a: PushAccepted| a@) == acc.accepted
                    &&& rejected@.map_values(|a: PushRejected| a@) == acc.rejected
                    &&& commits@.map_values(|p: (String, Option<i64>)| CommitReqView {
                        aid: p.0@,
                        deleted_at: p.1,
                    }) == acc.commits
                }),
                keys_wf(self@),
                total_b64_of(self@) <= total,
                0 <= total,
                total <= total_b64_of(st1) + 1100000 * i,
                0 <= count,
                count <= crate::store::record_count_of(st1) + i,
                self@.committed.len() + self@.staged.len() <= st1.committed.len()
                    + st1.staged.len() + i,
                st1.next_seq <= self@.next_seq,
                self@.next_seq <= st1.next_seq + i * 1073741826,
                self@.user == st1.user,
                self@.refs == st1.refs,
                accepted@.len() + rejected@.len() + commits@.len() == i,
            decreases n - i,
        {
            let ghost acc = spec_push_envs(acc0, envs.take(i as int), maxr, maxs, now_ms);
            proof {
                assert(envs.take(i as int + 1).drop_last() =~= envs.take(i as int));
                assert(envs.take(i as int + 1).last() == envs[i as int]);
                assert(count < i64::MAX);
                assert(total + 1100000 <= i64::MAX);
            }
            let e = &envelopes[i];
            proof {
                assert(e@ == envs[i as int]);
            }
            let (t2, c2, out) = self.push_one(e, total, count, cfg.max_records_per_user, quota.allowed_storage_b64, now_ms);
            total = t2;
            count = c2;
            match out {
                PushStepOutcome::Accepted { server_seq } => {
                    let ghost mprev = accepted@.map_values(|a: PushAccepted| a@);
                    accepted.push(
                        PushAccepted {
                            record_type: e.record_type.clone(),
                            record_id: e.record_id.clone(),
                            server_seq,
                        },
                    );
                    proof {
                        assert(accepted@.map_values(|a: PushAccepted| a@) =~= mprev.push(
                            AcceptedView { rtype: e@.rtype, rid: e@.rid, seq: server_seq },
                        ));
                    }
                },
                PushStepOutcome::Rejected { reason } => {
                    let ghost mprev = rejected@.map_values(|a: PushRejected| a@);
                    rejected.push(
                        PushRejected {
                            record_type: e.record_type.clone(),
                            record_id: e.record_id.clone(),
                            reason,
                        },
                    );
                    proof {
                        assert(rejected@.map_values(|a: PushRejected| a@) =~= mprev.push(
                            RejectedView { rtype: e@.rtype, rid: e@.rid, reason },
                        ));
                    }
                },
                PushStepOutcome::Deferred => {
                    let ghost mprev = commits@.map_values(
                        |p: (String, Option<i64>)| CommitReqView { aid: p.0@, deleted_at: p.1 },
                    );
                    commits.push((e.record_id.clone(), e.deleted_at_ms_utc));
                    proof {
                        assert(commits@.map_values(
                            |p: (String, Option<i64>)| CommitReqView {
                                aid: p.0@,
                                deleted_at: p.1,
                            },
                        ) =~= mprev.push(CommitReqView { aid: e@.rid, deleted_at: e@.deleted_at }));
                    }
                },
            }
            proof {
                let acc_next = spec_push_envs(acc0, envs.take(i as int + 1), maxr, maxs, now_ms);
                assert(acc_next == spec_push_env_acc(acc, envs[i as int], maxr, maxs, now_ms));
                assert(self@ == acc_next.st);
                assert(total == acc_next.total);
                assert(count == acc_next.count);
                assert(accepted@.map_values(|a: PushAccepted| a@) == acc_next.accepted);
                assert(rejected@.map_values(|a: PushRejected| a@) == acc_next.rejected);
                assert(commits@.map_values(|p: (String, Option<i64>)| CommitReqView {
                    aid: p.0@,
                    deleted_at: p.1,
                }) == acc_next.commits);
            }
            i = i + 1;
        }
        proof {
            assert(envs.take(n as int) =~= envs);
        }
        let ghost acc1 = spec_push_envs(acc0, envs, maxr, maxs, now_ms);
        // Deferred commit markers.
        let att_s: String = "todo_attachment".to_owned();
        let m = commits.len();
        let mut j: usize = 0;
        let ghost crs = commits@.map_values(
            |p: (String, Option<i64>)| CommitReqView { aid: p.0@, deleted_at: p.1 },
        );
        proof {
            assert(crs.take(0) =~= Seq::<CommitReqView>::empty());
            assert(crs == acc1.commits);
        }
        while j < m
            invariant
                0 <= j <= m,
                m == commits@.len(),
                m <= n,
                n == envelopes@.len(),
                crs == commits@.map_values(
                    |p: (String, Option<i64>)| CommitReqView { aid: p.0@, deleted_at: p.1 },
                ),
                st1.committed.len() + st1.staged.len() + n < 1073741824,
                st1.next_seq + 2400000000000000000 <= i64::MAX,
                total_b64_of(st1) + 1100000 * (n + 1) <= i64::MAX,
                acc1.total <= total_b64_of(st1) + 1100000 * n,
                0 <= acc1.total,
                ({
                    let acc = spec_push_commits(acc1, crs.take(j as int), now_ms);
                    &&& self@ == acc.st
                    &&& accepted@.map_values(|a: PushAccepted| a@) == acc.accepted
                    &&& rejected@.map_values(|a: PushRejected| a@) == acc.rejected
                }),
                att_s@ == att_type(),
                keys_wf(self@),
                total_b64_of(self@) <= acc1.total,
                self@.committed.len() + self@.staged.len() <= st1.committed.len()
                    + st1.staged.len() + n,
                st1.next_seq <= self@.next_seq,
                self@.next_seq <= st1.next_seq + (n + j) * 1073741826,
                self@.user == st1.user,
                self@.refs == st1.refs,
            decreases m - j,
        {
            let ghost acc = spec_push_commits(acc1, crs.take(j as int), now_ms);
            proof {
                assert(crs.take(j as int + 1).drop_last() =~= crs.take(j as int));
                assert(crs.take(j as int + 1).last() == crs[j as int]);
            }
            let aid = commits[j].0.clone();
            let del = commits[j].1;
            proof {
                assert(crs[j as int] == (CommitReqView { aid: aid@, deleted_at: del }));
            }
            if del.is_some() {
                let ghost mprev = accepted@.map_values(|a: PushAccepted| a@);
                accepted.push(
                    PushAccepted {
                        record_type: "todo_attachment_commit".to_owned(),
                        record_id: aid,
                        server_seq: 0,
                    },
                );
                proof {
                    assert(accepted@.map_values(|a: PushAccepted| a@) =~= mprev.push(
                        AcceptedView { rtype: commit_type(), rid: crs[j as int].aid, seq: 0 },
                    ));
                }
            } else {
                let midx = self.find_committed_idx(&att_s, &aid);
                proof {
                    lemma_find_committed_from(self@.committed, att_type(), aid@, 0);
                }
                let meta_deleted = match midx {
                    Some(ix) => self.committed[ix].deleted_at_ms_utc.is_some(),
                    None => false,
                };
                if meta_deleted {
                    let ghost mprev = rejected@.map_values(|a: PushRejected| a@);
                    rejected.push(
                        PushRejected {
                            record_type: "todo_attachment_commit".to_owned(),
                            record_id: aid,
                            reason: RejectReason::AttachmentDeleted,
                        },
                    );
                    proof {
                        assert(rejected@.map_values(|a: PushRejected| a@) =~= mprev.push(
                            RejectedView {
                                rtype: commit_type(),
                                rid: crs[j as int].aid,
                                reason: RejectReason::AttachmentDeleted,
                            },
                        ));
                    }
                } else {
                    let has_cm = midx.is_some();
                    let sres = self.find_staged_idx(&att_s, &aid);
                    proof {
                        lemma_find_staged_from(self@.staged, att_type(), aid@, 0);
                    }
                    let has_sm = sres.is_some();
                    if !has_cm && !has_sm {
                        let ghost mprev = rejected@.map_values(|a: PushRejected| a@);
                        rejected.push(
                            PushRejected {
                                record_type: "todo_attachment_commit".to_owned(),
                                record_id: aid,
                                reason: RejectReason::MissingAttachmentMeta,
                            },
                        );
                        proof {
                            assert(rejected@.map_values(|a: PushRejected| a@) =~= mprev.push(
                                RejectedView {
                                    rtype: commit_type(),
                                    rid: crs[j as int].aid,
                                    reason: RejectReason::MissingAttachmentMeta,
                                },
                            ));
                        }
                    } else {
                        proof {
                            crate::records::lemma_sum_staged_nonneg(self@.staged);
                            crate::records::lemma_sum_committed_nonneg(self@.committed);
                            crate::attach::lemma_commit_staged_lens(self@, aid@, now_ms);
                            crate::attach::lemma_commit_staged_sum(self@, aid@, now_ms);
                        }
                        self.commit_staged_attachment(&aid, now_ms);
                        let ghost mprev = accepted@.map_values(|a: PushAccepted| a@);
                        accepted.push(
                            PushAccepted {
                                record_type: "todo_attachment_commit".to_owned(),
                                record_id: aid,
                                server_seq: 0,
                            },
                        );
                        proof {
                            assert(accepted@.map_values(|a: PushAccepted| a@) =~= mprev.push(
                                AcceptedView {
                                    rtype: commit_type(),
                                    rid: crs[j as int].aid,
                                    seq: 0,
                                },
                            ));
                        }
                    }
                }
            }
            proof {
                let acc_next = spec_push_commits(acc1, crs.take(j as int + 1), now_ms);
                assert(acc_next == spec_push_commit_acc(acc, crs[j as int], now_ms));
            }
            j = j + 1;
        }
        proof {
            assert(crs.take(m as int) =~= crs);
        }
        // Restore the accounting invariant: stored bytes from the stores.
        let total_final = self.compute_total_b64();
        self.user.stored_b64 = total_final;
        proof {
            let b = spec_push_batch(st1, envs, maxr, maxs, now_ms);
            assert(b == spec_push_commits(acc1, acc1.commits, now_ms));
            assert(final(self)@ =~= (StateView {
                user: crate::store::UserView { stored_b64: total_b64_of(b.st) as i64, ..b.st.user },
                ..b.st
            }));
        }
        Ok(PushResponse { accepted, rejected })
    }
}

/// Compaction rewrites only chunk rows: any other committed row survives
/// unchanged.
pub proof fn lemma_compact_preserves_non_chunk(
    c: Seq<CommittedView>,
    next: i64,
    ids: Seq<Seq<char>>,
    del: i64,
    now: i64,
    k: int,
)
    requires
        0 <= k < c.len(),
        c[k].rtype != chunk_type(),
    ensures
        exists|j: int|
            0 <= j < spec_compact_ids(c, next, ids, del, now).0.len()
                && #[trigger] spec_compact_ids(c, next, ids, del, now).0[j] == c[k],
    decreases ids.len(),
{
    if ids.len() == 0 {
        assert(spec_compact_ids(c, next, ids, del, now).0[k] == c[k]);
    } else {
        let dl = ids.drop_last();
        lemma_compact_preserves_non_chunk(c, next, dl, del, now, k);
        let prev = spec_compact_ids(c, next, dl, del, now);
        let id = ids.last();
        let j = choose|j: int| 0 <= j < prev.0.len() && #[trigger] prev.0[j] == c[k];
        lemma_find_committed_from(prev.0, chunk_type(), id, 0);
        match find_committed(prev.0, chunk_type(), id) {
            None => {
                assert(spec_compact_ids(c, next, ids, del, now).0[j] == c[k]);
            },
            Some(i) => {
                if crate::attach::is_compacted(prev.0[i]) {
                    assert(spec_compact_ids(c, next, ids, del, now).0[j] == c[k]);
                } else {
                    let out = spec_compact_ids(c, next, ids, del, now).0;
                    assert(prev.0[i].rtype == chunk_type());
                    assert(i != j);
                    prev.0.remove_ensures(i);
                    let jj = if j < i {
                        j
                    } else {
                        j - 1
                    };
                    assert(prev.0.remove(i)[jj] == prev.0[j]);
                    assert(out[jj] == c[k]);
                }
            },
        }
    }
}

/// An accepted envelope with a non-zero sequence number is stored: the
/// committed log afterward holds a row with the envelope's key, its
/// stamp, its payload, and exactly the reported sequence number. Together
/// with `lemma_pull_returns_row` this says a pull whose cursor lies
/// before that sequence number returns the pushed envelope.
pub proof fn lemma_push_accept_stores(
    st: StateView,
    total: int,
    count: int,
    e: EnvelopeView,
    max_records: Option<i64>,
    max_storage: Option<i64>,
    now: i64,
)
    requires
        keys_wf(st),
        st.next_seq < i64::MAX,
        spec_push_one(st, total, count, e, max_records, max_storage, now).3
            == (PushStepOutcome::Accepted { server_seq: (st.next_seq + 1) as i64 }),
        st.next_seq + 1 != 0,
    ensures
        exists|j: int|
            0 <= j < spec_push_one(st, total, count, e, max_records, max_storage, now).0.committed.len()
                && #[trigger] spec_push_one(
                st,
                total,
                count,
                e,
                max_records,
                max_storage,
                now,
            ).0.committed[j] == committed_of_env(e, (st.next_seq + 1) as i64, now),
{
    crate::records::lemma_types_distinct();
    let seq = (st.next_seq + 1) as i64;
    let crow = committed_of_env(e, seq, now);
    let st1c = spec_upsert_committed(st.committed, crow);
    lemma_find_committed_from(st.committed, e.rtype, e.rid, 0);
    match find_committed(st.committed, e.rtype, e.rid) {
        Some(i) => {
            assert(st1c.last() == crow);
        },
        None => {
            assert(st1c.last() == crow);
        },
    }
    let out = spec_push_one(st, total, count, e, max_records, max_storage, now).0;
    if e.rtype == att_type() && e.deleted_at is Some {
        assert(crow.rtype != chunk_type());
        assert(st1c[st1c.len() - 1] == crow);
        lemma_compact_preserves_non_chunk(
            st1c,
            seq,
            crate::attach::committed_chunk_ids(st1c, e.rid),
            e.deleted_at.unwrap(),
            now,
            st1c.len() - 1,
        );
    } else {
        assert(out.committed[out.committed.len() - 1] == crow);
    }
}

} // verus!
