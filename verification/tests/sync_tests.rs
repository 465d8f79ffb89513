use sync_server::gc::{GhostGcOptions, GhostGcStats};
use sync_server::keybundle::KeyBundleStore;
use sync_server::hlc::Hlc;
use sync_server::push::{ApiError, PushConfig, RejectReason};
use sync_server::quota::BillingConfig;
use sync_server::records::SyncRecordEnvelope;
use sync_server::store::SyncState;

const NOW: i64 = 1_700_000_000_000;

fn billing() -> BillingConfig {
    BillingConfig {
        default_base_storage_b64: None,
        default_base_outbound_bytes: None,
        plans: Vec::new(),
    }
}

fn cfg() -> PushConfig {
    PushConfig { max_push_records: 500, max_records_per_user: None }
}

fn env(
    t: &str,
    id: &str,
    w: i64,
    c: i64,
    d: &str,
    deleted: Option<i64>,
    nonce: &str,
    ct: &str,
) -> SyncRecordEnvelope {
    SyncRecordEnvelope {
        record_type: t.to_string(),
        record_id: id.to_string(),
        hlc: Hlc { wall_time_ms_utc: w, counter: c, device_id: d.to_string() },
        deleted_at_ms_utc: deleted,
        schema_version: 1,
        dek_id: "k1".to_string(),
        payload_algo: "aes".to_string(),
        nonce: nonce.to_string(),
        ciphertext: ct.to_string(),
    }
}

fn push_one_env(state: &mut SyncState, e: SyncRecordEnvelope) -> sync_server::push::PushResponse {
    state.push_sync(&billing(), &cfg(), &vec![e], NOW).expect("push")
}

#[test]
fn s1_hlc_win() {
    let mut state = SyncState::new();
    let r = push_one_env(&mut state, env("todo", "t1", 10, 0, "A", None, "n", "c"));
    assert_eq!(r.accepted.len(), 1);
    assert_eq!(r.accepted[0].server_seq, 1);

    let r = push_one_env(&mut state, env("todo", "t1", 10, 0, "A", None, "n", "c"));
    assert_eq!(r.accepted.len(), 0);
    assert_eq!(r.rejected.len(), 1);
    assert_eq!(r.rejected[0].reason, RejectReason::OlderHlc);
    assert_eq!(r.rejected[0].reason.as_str(), "older_hlc");

    let r = push_one_env(&mut state, env("todo", "t1", 10, 1, "A", None, "n", "c"));
    assert_eq!(r.accepted.len(), 1);
    assert_eq!(r.accepted[0].server_seq, 2);

    let page = state.pull_sync(&billing(), 0, 500, None, NOW).expect("pull");
    assert_eq!(page.records.len(), 1);
    assert_eq!(page.records[0].record_id, "t1");
    assert_eq!(page.records[0].hlc.counter, 1);
    assert_eq!(page.records[0].server_seq, 2);
    assert_eq!(page.next_since, 2);
}

#[test]
fn s2_attachment_two_phase() {
    let mut state = SyncState::new();
    let r = push_one_env(&mut state, env("todo_attachment", "a1", 1, 0, "A", None, "n", "c"));
    assert_eq!(r.accepted[0].server_seq, 0);
    let r = push_one_env(&mut state, env("todo_attachment_chunk", "a1:0", 1, 0, "A", None, "n", "c"));
    assert_eq!(r.accepted[0].server_seq, 0);

    let page = state.pull_sync(&billing(), 0, 500, None, NOW).expect("pull");
    assert_eq!(page.records.len(), 0);

    let r = push_one_env(&mut state, env("todo_attachment_commit", "a1", 1, 1, "A", None, "", ""));
    assert_eq!(r.accepted.len(), 1);
    assert_eq!(r.rejected.len(), 0);

    let page = state.pull_sync(&billing(), 0, 500, None, NOW).expect("pull");
    assert_eq!(page.records.len(), 2);
    assert_eq!(page.records[0].record_type, "todo_attachment");
    assert_eq!(page.records[1].record_type, "todo_attachment_chunk");
    assert!(page.records[0].server_seq < page.records[1].server_seq);
}

#[test]
fn s3_pre_commit_tombstone() {
    let mut state = SyncState::new();
    push_one_env(&mut state, env("todo_attachment", "a1", 1, 0, "A", None, "n", "c"));
    push_one_env(&mut state, env("todo_attachment_chunk", "a1:0", 1, 0, "A", None, "n", "c"));
    assert!(state.user.stored_b64 > 0);

    let r = push_one_env(&mut state, env("todo_attachment", "a1", 2, 0, "A", Some(99), "", ""));
    assert_eq!(r.accepted.len(), 1);
    assert_eq!(r.accepted[0].server_seq, 0);

    let page = state.pull_sync(&billing(), 0, 500, None, NOW).expect("pull");
    assert_eq!(page.records.len(), 0);
    assert_eq!(state.staged.len(), 0);
    assert_eq!(state.user.stored_b64, 0);
}

#[test]
fn s4_post_commit_delete_and_compaction() {
    let mut state = SyncState::new();
    push_one_env(&mut state, env("todo_attachment", "a1", 1, 0, "A", None, "n", "c"));
    push_one_env(&mut state, env("todo_attachment_chunk", "a1:0", 1, 0, "A", None, "nn", "cc"));
    push_one_env(&mut state, env("todo_attachment_commit", "a1", 1, 1, "A", None, "", ""));

    let r = push_one_env(&mut state, env("todo_attachment", "a1", 3, 0, "A", Some(100), "", ""));
    assert_eq!(r.accepted.len(), 1);
    assert!(r.accepted[0].server_seq > 0);

    let page = state.pull_sync(&billing(), 0, 500, None, NOW).expect("pull");
    assert_eq!(page.records.len(), 2);
    for rec in &page.records {
        assert_eq!(rec.deleted_at_ms_utc, Some(100));
        if rec.record_type == "todo_attachment_chunk" {
            assert_eq!(rec.nonce, "");
            assert_eq!(rec.ciphertext, "");
            assert_eq!(rec.hlc.device_id, "server");
        }
    }
}

#[test]
fn s5_rollback_cursor() {
    let mut state = SyncState::new();
    for i in 0..5 {
        let id = format!("t{}", i);
        push_one_env(&mut state, env("todo", &id, 10 + i as i64, 0, "A", None, "n", "c"));
    }
    let page = state.pull_sync(&billing(), 1000, 500, None, NOW).expect("pull");
    assert_eq!(page.records.len(), 0);
    assert_eq!(page.next_since, 5);
}

#[test]
fn s6_quota_shrink_allowed() {
    let mut state = SyncState::new();
    let b = BillingConfig {
        default_base_storage_b64: Some(10),
        default_base_outbound_bytes: None,
        plans: Vec::new(),
    };
    let c = cfg();
    // Fill storage exactly to the limit.
    let r = state
        .push_sync(&b, &c, &vec![env("todo", "r1", 1, 0, "A", None, "aaaaa", "bbbbb")], NOW)
        .expect("push");
    assert_eq!(r.accepted.len(), 1);
    assert_eq!(state.user.stored_b64, 10);

    // A shrinking update is allowed even at the limit.
    let r = state
        .push_sync(&b, &c, &vec![env("todo", "r1", 2, 0, "A", None, "aaaaa", "bb")], NOW)
        .expect("push");
    assert_eq!(r.accepted.len(), 1);
    assert_eq!(state.user.stored_b64, 7);

    // A growing update past the limit is rejected.
    let r = state
        .push_sync(&b, &c, &vec![env("todo", "r1", 3, 0, "A", None, "aaaaa", "bbbbbbbb")], NOW)
        .expect("push");
    assert_eq!(r.accepted.len(), 0);
    assert_eq!(r.rejected[0].reason, RejectReason::QuotaExceeded);
    assert_eq!(r.rejected[0].reason.as_str(), "quota_exceeded");
}

#[test]
fn s7_ghost_gc() {
    let mut state = SyncState::new();
    // A tombstoned todo with empty payload, and a committed attachment.
    push_one_env(&mut state, env("todo", "t1", 1, 0, "A", Some(5), "", ""));
    push_one_env(&mut state, env("todo_attachment", "a1", 1, 0, "A", None, "n", "c"));
    push_one_env(&mut state, env("todo_attachment_commit", "a1", 1, 1, "A", None, "", ""));
    state
        .upsert_attachment_refs(&vec![("a1".to_string(), "t1".to_string())], NOW)
        .expect("refs");

    let opts = GhostGcOptions { include_unreferenced_when_no_live_todo: true, min_ref_age_ms: 0 };
    let stats: GhostGcStats = state.gc_ghost_files_for_user(opts, NOW);
    assert_eq!(stats.deleted_attachments, 1);
    assert_eq!(stats.deleted_records, 1);
    assert_eq!(stats.stored_after, 0);

    let stats2 = state.gc_ghost_files_for_user(opts, NOW);
    assert_eq!(stats2.deleted_attachments, 0);
    assert_eq!(stats2.deleted_records, 0);
    assert_eq!(stats2.stored_after, 0);
    assert_eq!(stats2.stored_before, stats.stored_after);
}

#[test]
fn resurrection_is_rejected() {
    let mut state = SyncState::new();
    push_one_env(&mut state, env("todo_attachment", "a1", 1, 0, "A", None, "n", "c"));
    push_one_env(&mut state, env("todo_attachment_commit", "a1", 1, 1, "A", None, "", ""));
    push_one_env(&mut state, env("todo_attachment", "a1", 2, 0, "A", Some(50), "", ""));

    // Meta without a tombstone is rejected after the delete.
    let r = push_one_env(&mut state, env("todo_attachment", "a1", 9, 0, "A", None, "n", "c"));
    assert_eq!(r.rejected[0].reason, RejectReason::AttachmentDeleted);
    assert_eq!(r.rejected[0].reason.as_str(), "attachment_deleted");

    // A chunk of the same attachment is rejected too.
    let r = push_one_env(&mut state, env("todo_attachment_chunk", "a1:7", 9, 0, "A", None, "n", "c"));
    assert_eq!(r.rejected[0].reason, RejectReason::AttachmentDeleted);
}

#[test]
fn commit_marker_errors() {
    let mut state = SyncState::new();
    // No meta anywhere.
    let r = push_one_env(&mut state, env("todo_attachment_commit", "nope", 1, 0, "A", None, "", ""));
    assert_eq!(r.rejected[0].reason, RejectReason::MissingAttachmentMeta);
    assert_eq!(r.rejected[0].reason.as_str(), "missing_attachment_meta");

    // A tombstoned marker is a client-side cancellation: accepted, no-op.
    let r = push_one_env(
        &mut state,
        env("todo_attachment_commit", "nope", 1, 1, "A", Some(9), "", ""),
    );
    assert_eq!(r.accepted.len(), 1);
    assert_eq!(r.accepted[0].server_seq, 0);

    // A marker for a tombstoned attachment is rejected.
    push_one_env(&mut state, env("todo_attachment", "a1", 1, 0, "A", None, "n", "c"));
    push_one_env(&mut state, env("todo_attachment_commit", "a1", 1, 1, "A", None, "", ""));
    push_one_env(&mut state, env("todo_attachment", "a1", 2, 0, "A", Some(50), "", ""));
    let r = push_one_env(&mut state, env("todo_attachment_commit", "a1", 3, 0, "A", None, "", ""));
    assert_eq!(r.rejected[0].reason, RejectReason::AttachmentDeleted);
}

#[test]
fn commit_is_idempotent() {
    let mut state = SyncState::new();
    push_one_env(&mut state, env("todo_attachment", "a1", 1, 0, "A", None, "n", "c"));
    push_one_env(&mut state, env("todo_attachment_chunk", "a1:1", 1, 0, "A", None, "n", "c"));
    push_one_env(&mut state, env("todo_attachment_chunk", "a1:0", 1, 0, "A", None, "n", "c"));
    state.commit_staged_attachment(&"a1".to_string(), NOW);
    let committed_after_first: Vec<(String, i64)> = state
        .committed
        .iter()
        .map(|r| (r.record_id.clone(), r.server_seq))
        .collect();
    assert_eq!(state.staged.len(), 0);
    // Chunks were committed in index order after the meta.
    assert_eq!(committed_after_first[0].0, "a1");
    assert_eq!(committed_after_first[1].0, "a1:0");
    assert_eq!(committed_after_first[2].0, "a1:1");

    state.commit_staged_attachment(&"a1".to_string(), NOW + 10);
    let committed_after_second: Vec<(String, i64)> = state
        .committed
        .iter()
        .map(|r| (r.record_id.clone(), r.server_seq))
        .collect();
    assert_eq!(committed_after_first, committed_after_second);
    assert_eq!(state.staged.len(), 0);
}

#[test]
fn batch_and_size_limits() {
    let mut state = SyncState::new();
    let c = PushConfig { max_push_records: 1, max_records_per_user: None };
    let batch = vec![
        env("todo", "t1", 1, 0, "A", None, "n", "c"),
        env("todo", "t2", 1, 0, "A", None, "n", "c"),
    ];
    assert_eq!(state.push_sync(&billing(), &c, &batch, NOW).err(), Some(ApiError::TooManyRecords));

    // An oversized field is rejected per envelope.
    let big = "x".repeat(524_289);
    let r = push_one_env(&mut state, env("todo", "t1", 1, 0, "A", None, &big, "c"));
    assert_eq!(r.rejected[0].reason, RejectReason::RecordTooLarge);
    assert_eq!(r.rejected[0].reason.as_str(), "record_too_large");
}

#[test]
fn banned_user_is_rejected() {
    let mut state = SyncState::new();
    state.user.banned_at_ms_utc = Some(5);
    let r = state.push_sync(&billing(), &cfg(), &vec![env("todo", "t", 1, 0, "A", None, "", "")], NOW);
    assert_eq!(r.err(), Some(ApiError::Banned));
    let r = state.pull_sync(&billing(), 0, 10, None, NOW);
    assert_eq!(r.err(), Some(ApiError::Banned));
}

#[test]
fn monthly_reset_happens_before_outbound_is_added() {
    let mut state = SyncState::new();
    state.user.api_outbound_bytes = 999;
    state.user.api_outbound_month_utc = 202001;
    // NOW lies in a different month, so the counter resets on entry.
    push_one_env(&mut state, env("todo", "t1", 1, 0, "A", None, "n", "c"));
    assert_eq!(state.user.api_outbound_bytes, 0);
    assert_ne!(state.user.api_outbound_month_utc, 202001);
    // Response accounting then adds onto the fresh counter.
    state.add_outbound(40);
    assert_eq!(state.user.api_outbound_bytes, 40);
}

#[test]
fn outbound_quota_gate() {
    let mut state = SyncState::new();
    let b = BillingConfig {
        default_base_storage_b64: None,
        default_base_outbound_bytes: Some(100),
        plans: Vec::new(),
    };
    state.user.api_outbound_month_utc = month_key_of_now();
    state.user.api_outbound_bytes = 101;
    let r = state.push_sync(&b, &cfg(), &vec![env("todo", "t", 1, 0, "A", None, "", "")], NOW);
    assert_eq!(r.err(), Some(ApiError::QuotaExceeded));

    // The conditional add refuses to exceed the allowance.
    state.user.api_outbound_bytes = 90;
    assert!(!state.add_outbound_checked(20, 100));
    assert_eq!(state.user.api_outbound_bytes, 90);
    assert!(state.add_outbound_checked(10, 100));
    assert_eq!(state.user.api_outbound_bytes, 100);
}

fn month_key_of_now() -> i64 {
    sync_server::dates::month_utc_from_unix_ms(NOW)
}

#[test]
fn pull_excludes_device_and_pages() {
    let mut state = SyncState::new();
    push_one_env(&mut state, env("todo", "t1", 1, 0, "A", None, "n", "c"));
    push_one_env(&mut state, env("todo", "t2", 1, 0, "B", None, "n", "c"));
    push_one_env(&mut state, env("todo", "t3", 2, 0, "A", None, "n", "c"));

    let excl = "A".to_string();
    let page = state.pull_sync(&billing(), 0, 500, Some(&excl), NOW).expect("pull");
    assert_eq!(page.records.len(), 1);
    assert_eq!(page.records[0].record_id, "t2");

    let page = state.pull_sync(&billing(), 0, 2, None, NOW).expect("pull");
    assert_eq!(page.records.len(), 2);
    assert_eq!(page.next_since, 2);
    let page = state.pull_sync(&billing(), page.next_since, 2, None, NOW).expect("pull");
    assert_eq!(page.records.len(), 1);
    assert_eq!(page.records[0].record_id, "t3");
}

#[test]
fn staged_sweeper_deletes_old_rows() {
    let mut state = SyncState::new();
    push_one_env(&mut state, env("todo_attachment", "a1", 1, 0, "A", None, "nn", "cc"));
    assert_eq!(state.staged.len(), 1);
    // Disabled sweeper does nothing.
    assert_eq!(state.gc_staged_records(0, NOW + 10_000_000), 0);
    assert_eq!(state.staged.len(), 1);
    // A young row survives.
    assert_eq!(state.gc_staged_records(86_400_000, NOW + 1000), 0);
    assert_eq!(state.staged.len(), 1);
    // An expired row is swept and the stored total recomputed.
    assert_eq!(state.gc_staged_records(86_400_000, NOW + 86_400_001), 1);
    assert_eq!(state.staged.len(), 0);
    assert_eq!(state.user.stored_b64, 0);
}

#[test]
fn key_bundle_cas() {
    let mut kb = KeyBundleStore::new();
    assert_eq!(kb.current_version(), 0);
    assert!(kb.get().is_err());

    assert_eq!(kb.put(3, "{}".to_string(), NOW), Err(ApiError::VersionConflict));
    assert_eq!(kb.put(0, "{\"a\":1}".to_string(), NOW), Ok(1));
    let b = kb.get().expect("bundle");
    assert_eq!(b.bundle_version, 1);
    assert_eq!(b.bundle_json, "{\"a\":1}");
    assert_eq!(kb.put(0, "{}".to_string(), NOW), Err(ApiError::VersionConflict));
    assert_eq!(kb.put(1, "{}".to_string(), NOW + 5), Ok(2));
    assert_eq!(kb.get().expect("bundle").updated_at_ms_utc, NOW + 5);
}

#[test]
fn attachment_refs_are_upserted_and_trimmed() {
    let mut state = SyncState::new();
    let pairs = vec![
        (" a1 ".to_string(), "t1".to_string()),
        ("".to_string(), "t2".to_string()),
        ("a2".to_string(), "  ".to_string()),
        ("a1".to_string(), "t9".to_string()),
    ];
    state.upsert_attachment_refs(&pairs, NOW).expect("refs");
    assert_eq!(state.refs.len(), 1);
    assert_eq!(state.refs[0].attachment_id, "a1");
    assert_eq!(state.refs[0].todo_id, "t9");

    let too_many: Vec<(String, String)> =
        (0..5001).map(|i| (format!("a{}", i), "t".to_string())).collect();
    assert_eq!(state.upsert_attachment_refs(&too_many, NOW), Err(ApiError::TooManyRecords));
}

#[test]
fn gc_referenced_mode_respects_age_filter() {
    let mut state = SyncState::new();
    push_one_env(&mut state, env("todo_attachment", "a1", 1, 0, "A", None, "n", "c"));
    push_one_env(&mut state, env("todo_attachment_commit", "a1", 1, 1, "A", None, "", ""));
    state
        .upsert_attachment_refs(&vec![("a1".to_string(), "missing".to_string())], NOW)
        .expect("refs");

    // The reference is too young for the sweeper's age filter.
    let young = GhostGcOptions { include_unreferenced_when_no_live_todo: false, min_ref_age_ms: 60_000 };
    assert!(!state.has_orphan_attachment_ref(60_000, NOW + 1000));
    let stats = state.gc_ghost_files_for_user(young, NOW + 1000);
    assert_eq!(stats.deleted_records, 0);

    // Old enough: the orphan is collected.
    assert!(state.has_orphan_attachment_ref(60_000, NOW + 120_000));
    let stats = state.gc_ghost_files_for_user(young, NOW + 120_000);
    assert_eq!(stats.deleted_attachments, 1);
    assert_eq!(stats.deleted_records, 1);
    assert_eq!(state.refs.len(), 0);
}

#[test]
fn pull_clamps_cursor_and_page_size() {
    let mut state = SyncState::new();
    for i in 0..3 {
        let id = format!("r{}", i);
        push_one_env(&mut state, env("todo", &id, 10 + i as i64, 0, "A", None, "n", "c"));
    }
    // A zero page size is raised to one.
    let page = state.pull_sync(&billing(), 0, 0, None, NOW).expect("pull");
    assert_eq!(page.records.len(), 1);
    assert_eq!(page.next_since, 1);
    // A negative cursor reads from the start; an oversized page size is
    // capped (here all three rows fit anyway).
    let page = state.pull_sync(&billing(), -7, 9999, None, NOW).expect("pull");
    assert_eq!(page.records.len(), 3);
    assert_eq!(page.next_since, 3);
}
