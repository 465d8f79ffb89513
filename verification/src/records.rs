//! The record shapes held by the sync engine: envelopes as pushed by
//! clients, committed log rows, staged attachment rows, and attachment
//! ownership references.

use vstd::prelude::*;

use crate::hlc::{Hlc, HlcView};
use crate::strutil::has_prefix;

verus! {

/// Record type of attachment metadata.
pub open spec fn att_type() -> Seq<char> {
    "todo_attachment"@
}

/// Record type of attachment payload chunks.
pub open spec fn chunk_type() -> Seq<char> {
    "todo_attachment_chunk"@
}

/// Record type of commit markers.
pub open spec fn commit_type() -> Seq<char> {
    "todo_attachment_commit"@
}

/// Record type of todos.
pub open spec fn todo_type() -> Seq<char> {
    "todo"@
}

/// The three special attachment-related type strings are pairwise
/// distinct, and distinct from `todo`.
pub proof fn lemma_types_distinct()
    ensures
        att_type() != chunk_type(),
        att_type() != commit_type(),
        chunk_type() != commit_type(),
        todo_type() != att_type(),
        todo_type() != chunk_type(),
        todo_type() != commit_type(),
{
    reveal_strlit("todo_attachment");
    reveal_strlit("todo_attachment_chunk");
    reveal_strlit("todo_attachment_commit");
    reveal_strlit("todo");
    assert(att_type().len() == 15);
    assert(chunk_type().len() == 21);
    assert(commit_type().len() == 22);
    assert(todo_type().len() == 4);
}

/// Stageable types go to the staging store before a commit marker
/// promotes them.
pub open spec fn is_stageable_type(t: Seq<char>) -> bool {
    t == att_type() || t == chunk_type()
}

/// An envelope as submitted through `push`.
#[derive(Debug)]
pub struct SyncRecordEnvelope {
    pub record_type: String,
    pub record_id: String,
    pub hlc: Hlc,
    pub deleted_at_ms_utc: Option<i64>,
    pub schema_version: i64,
    pub dek_id: String,
    pub payload_algo: String,
    pub nonce: String,
    pub ciphertext: String,
}

/// Mathematical value of an envelope.
#[verifier::ext_equal]
pub ghost struct EnvelopeView {
    pub rtype: Seq<char>,
    pub rid: Seq<char>,
    pub hlc: HlcView,
    pub deleted_at: Option<i64>,
    pub schema: i64,
    pub dek: Seq<char>,
    pub algo: Seq<char>,
    pub nonce: Seq<char>,
    pub ciphertext: Seq<char>,
}

impl View for SyncRecordEnvelope {
    type V = EnvelopeView;

    open spec fn view(&self) -> EnvelopeView {
        EnvelopeView {
            rtype: self.record_type@,
            rid: self.record_id@,
            hlc: self.hlc@,
            deleted_at: self.deleted_at_ms_utc,
            schema: self.schema_version,
            dek: self.dek_id@,
            algo: self.payload_algo@,
            nonce: self.nonce@,
            ciphertext: self.ciphertext@,
        }
    }
}

impl Clone for SyncRecordEnvelope {
    fn clone(&self) -> (r: Self)
        ensures
            r@ == self@,
    {
        SyncRecordEnvelope {
            record_type: self.record_type.clone(),
            record_id: self.record_id.clone(),
            hlc: self.hlc.clone(),
            deleted_at_ms_utc: self.deleted_at_ms_utc,
            schema_version: self.schema_version,
            dek_id: self.dek_id.clone(),
            payload_algo: self.payload_algo.clone(),
            nonce: self.nonce.clone(),
            ciphertext: self.ciphertext.clone(),
        }
    }
}

/// Stored payload size of an envelope: the character lengths of nonce and
/// ciphertext together, which is what counts toward the storage quota.
pub open spec fn env_size(e: EnvelopeView) -> int {
    e.nonce.len() + e.ciphertext.len() as int
}

/// A row of the committed per-user log, visible through `pull`.
#[derive(Debug)]
pub struct CommittedRecord {
    pub record_type: String,
    pub record_id: String,
    pub hlc: Hlc,
    pub deleted_at_ms_utc: Option<i64>,
    pub schema_version: i64,
    pub dek_id: String,
    pub payload_algo: String,
    pub nonce: String,
    pub ciphertext: String,
    pub server_seq: i64,
    pub updated_at_ms_utc: i64,
}

/// Mathematical value of a committed row.
#[verifier::ext_equal]
pub ghost struct CommittedView {
    pub rtype: Seq<char>,
    pub rid: Seq<char>,
    pub hlc: HlcView,
    pub deleted_at: Option<i64>,
    pub schema: i64,
    pub dek: Seq<char>,
    pub algo: Seq<char>,
    pub nonce: Seq<char>,
    pub ciphertext: Seq<char>,
    pub seq: i64,
    pub updated_at: i64,
}

impl View for CommittedRecord {
    type V = CommittedView;

    open spec fn view(&self) -> CommittedView {
        CommittedView {
            rtype: self.record_type@,
            rid: self.record_id@,
            hlc: self.hlc@,
            deleted_at: self.deleted_at_ms_utc,
            schema: self.schema_version,
            dek: self.dek_id@,
            algo: self.payload_algo@,
            nonce: self.nonce@,
            ciphertext: self.ciphertext@,
            seq: self.server_seq,
            updated_at: self.updated_at_ms_utc,
        }
    }
}

impl Clone for CommittedRecord {
    fn clone(&self) -> (r: Self)
        ensures
            r@ == self@,
    {
        CommittedRecord {
            record_type: self.record_type.clone(),
            record_id: self.record_id.clone(),
            hlc: self.hlc.clone(),
            deleted_at_ms_utc: self.deleted_at_ms_utc,
            schema_version: self.schema_version,
            dek_id: self.dek_id.clone(),
            payload_algo: self.payload_algo.clone(),
            nonce: self.nonce.clone(),
            ciphertext: self.ciphertext.clone(),
            server_seq: self.server_seq,
            updated_at_ms_utc: self.updated_at_ms_utc,
        }
    }
}

/// Stored payload size of a committed row.
pub open spec fn rec_size(r: CommittedView) -> int {
    r.nonce.len() + r.ciphertext.len() as int
}

/// A row of the staging store: an attachment meta or chunk waiting for its
/// commit marker.
#[derive(Debug)]
pub struct StagedRecord {
    pub record_type: String,
    pub record_id: String,
    pub hlc: Hlc,
    pub deleted_at_ms_utc: Option<i64>,
    pub schema_version: i64,
    pub dek_id: String,
    pub payload_algo: String,
    pub nonce: String,
    pub ciphertext: String,
    pub updated_at_ms_utc: i64,
}

/// Mathematical value of a staged row.
#[verifier::ext_equal]
pub ghost struct StagedView {
    pub rtype: Seq<char>,
    pub rid: Seq<char>,
    pub hlc: HlcView,
    pub deleted_at: Option<i64>,
    pub schema: i64,
    pub dek: Seq<char>,
    pub algo: Seq<char>,
    pub nonce: Seq<char>,
    pub ciphertext: Seq<char>,
    pub updated_at: i64,
}

impl View for StagedRecord {
    type V = StagedView;

    open spec fn view(&self) -> StagedView {
        StagedView {
            rtype: self.record_type@,
            rid: self.record_id@,
            hlc: self.hlc@,
            deleted_at: self.deleted_at_ms_utc,
            schema: self.schema_version,
            dek: self.dek_id@,
            algo: self.payload_algo@,
            nonce: self.nonce@,
            ciphertext: self.ciphertext@,
            updated_at: self.updated_at_ms_utc,
        }
    }
}

impl Clone for StagedRecord {
    fn clone(&self) -> (r: Self)
        ensures
            r@ == self@,
    {
        StagedRecord {
            record_type: self.record_type.clone(),
            record_id: self.record_id.clone(),
            hlc: self.hlc.clone(),
            deleted_at_ms_utc: self.deleted_at_ms_utc,
            schema_version: self.schema_version,
            dek_id: self.dek_id.clone(),
            payload_algo: self.payload_algo.clone(),
            nonce: self.nonce.clone(),
            ciphertext: self.ciphertext.clone(),
            updated_at_ms_utc: self.updated_at_ms_utc,
        }
    }
}

/// Stored payload size of a staged row.
pub open spec fn staged_size(r: StagedView) -> int {
    r.nonce.len() + r.ciphertext.len() as int
}

impl SyncRecordEnvelope {
    /// Materialize this envelope as a committed row under a fresh sequence
    /// number.
    pub fn to_committed(&self, server_seq: i64, now_ms: i64) -> (r: CommittedRecord)
        ensures
            r@ == (CommittedView {
                rtype: self@.rtype,
                rid: self@.rid,
                hlc: self@.hlc,
                deleted_at: self@.deleted_at,
                schema: self@.schema,
                dek: self@.dek,
                algo: self@.algo,
                nonce: self@.nonce,
                ciphertext: self@.ciphertext,
                seq: server_seq,
                updated_at: now_ms,
            }),
    {
        CommittedRecord {
            record_type: self.record_type.clone(),
            record_id: self.record_id.clone(),
            hlc: self.hlc.clone(),
            deleted_at_ms_utc: self.deleted_at_ms_utc,
            schema_version: self.schema_version,
            dek_id: self.dek_id.clone(),
            payload_algo: self.payload_algo.clone(),
            nonce: self.nonce.clone(),
            ciphertext: self.ciphertext.clone(),
            server_seq,
            updated_at_ms_utc: now_ms,
        }
    }

    /// Materialize this envelope as a staged row.
    pub fn to_staged(&self, now_ms: i64) -> (r: StagedRecord)
        ensures
            r@ == (StagedView {
                rtype: self@.rtype,
                rid: self@.rid,
                hlc: self@.hlc,
                deleted_at: self@.deleted_at,
                schema: self@.schema,
                dek: self@.dek,
                algo: self@.algo,
                nonce: self@.nonce,
                ciphertext: self@.ciphertext,
                updated_at: now_ms,
            }),
    {
        StagedRecord {
            record_type: self.record_type.clone(),
            record_id: self.record_id.clone(),
            hlc: self.hlc.clone(),
            deleted_at_ms_utc: self.deleted_at_ms_utc,
            schema_version: self.schema_version,
            dek_id: self.dek_id.clone(),
            payload_algo: self.payload_algo.clone(),
            nonce: self.nonce.clone(),
            ciphertext: self.ciphertext.clone(),
            updated_at_ms_utc: now_ms,
        }
    }
}

impl StagedRecord {
    /// Promote this staged row into a committed row under a fresh sequence
    /// number.
    pub fn to_committed(&self, server_seq: i64, now_ms: i64) -> (r: CommittedRecord)
        ensures
            r@ == (CommittedView {
                rtype: self@.rtype,
                rid: self@.rid,
                hlc: self@.hlc,
                deleted_at: self@.deleted_at,
                schema: self@.schema,
                dek: self@.dek,
                algo: self@.algo,
                nonce: self@.nonce,
                ciphertext: self@.ciphertext,
                seq: server_seq,
                updated_at: now_ms,
            }),
    {
        CommittedRecord {
            record_type: self.record_type.clone(),
            record_id: self.record_id.clone(),
            hlc: self.hlc.clone(),
            deleted_at_ms_utc: self.deleted_at_ms_utc,
            schema_version: self.schema_version,
            dek_id: self.dek_id.clone(),
            payload_algo: self.payload_algo.clone(),
            nonce: self.nonce.clone(),
            ciphertext: self.ciphertext.clone(),
            server_seq,
            updated_at_ms_utc: now_ms,
        }
    }
}

/// A client-reported ownership edge from an attachment to its todo.
#[derive(Debug)]
pub struct AttachmentRef {
    pub attachment_id: String,
    pub todo_id: String,
    pub updated_at_ms_utc: i64,
}

impl Clone for AttachmentRef {
    fn clone(&self) -> (r: Self)
        ensures
            r@ == self@,
    {
        AttachmentRef {
            attachment_id: self.attachment_id.clone(),
            todo_id: self.todo_id.clone(),
            updated_at_ms_utc: self.updated_at_ms_utc,
        }
    }
}

/// Mathematical value of an attachment reference.
#[verifier::ext_equal]
pub ghost struct RefView {
    pub attachment_id: Seq<char>,
    pub todo_id: Seq<char>,
    pub updated_at: i64,
}

impl View for AttachmentRef {
    type V = RefView;

    open spec fn view(&self) -> RefView {
        RefView {
            attachment_id: self.attachment_id@,
            todo_id: self.todo_id@,
            updated_at: self.updated_at_ms_utc,
        }
    }
}

/// Chunk record ids are `<attachment_id>:<index>`: the owning attachment
/// id followed by a colon.
pub open spec fn chunk_prefix(aid: Seq<char>) -> Seq<char> {
    aid.push(':')
}

/// Does a committed row belong to attachment `aid`, either as its metadata
/// row or as one of its chunk rows?
pub open spec fn committed_belongs_to(r: CommittedView, aid: Seq<char>) -> bool {
    (r.rtype == att_type() && r.rid == aid) || (r.rtype == chunk_type() && has_prefix(
        r.rid,
        chunk_prefix(aid),
    ))
}

/// Does a staged row belong to attachment `aid`?
pub open spec fn staged_belongs_to(r: StagedView, aid: Seq<char>) -> bool {
    (r.rtype == att_type() && r.rid == aid) || (r.rtype == chunk_type() && has_prefix(
        r.rid,
        chunk_prefix(aid),
    ))
}

/// Sum of stored payload sizes over a sequence of committed rows.
pub open spec fn sum_committed(s: Seq<CommittedView>) -> int
    decreases s.len(),
{
    if s.len() == 0 {
        0
    } else {
        sum_committed(s.drop_last()) + rec_size(s.last())
    }
}

/// Sum of stored payload sizes over a sequence of staged rows.
pub open spec fn sum_staged(s: Seq<StagedView>) -> int
    decreases s.len(),
{
    if s.len() == 0 {
        0
    } else {
        sum_staged(s.drop_last()) + staged_size(s.last())
    }
}

pub proof fn lemma_sum_committed_nonneg(s: Seq<CommittedView>)
    ensures
        sum_committed(s) >= 0,
    decreases s.len(),
{
    if s.len() > 0 {
        lemma_sum_committed_nonneg(s.drop_last());
    }
}

pub proof fn lemma_sum_staged_nonneg(s: Seq<StagedView>)
    ensures
        sum_staged(s) >= 0,
    decreases s.len(),
{
    if s.len() > 0 {
        lemma_sum_staged_nonneg(s.drop_last());
    }
}

pub proof fn lemma_sum_committed_push(s: Seq<CommittedView>, x: CommittedView)
    ensures
        sum_committed(s.push(x)) == sum_committed(s) + rec_size(x),
{
    assert(s.push(x).drop_last() =~= s);
    assert(s.push(x).last() == x);
}

pub proof fn lemma_sum_staged_push(s: Seq<StagedView>, x: StagedView)
    ensures
        sum_staged(s.push(x)) == sum_staged(s) + staged_size(x),
{
    assert(s.push(x).drop_last() =~= s);
    assert(s.push(x).last() == x);
}

pub proof fn lemma_sum_committed_remove(s: Seq<CommittedView>, i: int)
    requires
        0 <= i < s.len(),
    ensures
        sum_committed(s.remove(i)) == sum_committed(s) - rec_size(s[i]),
    decreases s.len(),
{
    if i == s.len() - 1 {
        assert(s.remove(i) =~= s.drop_last());
    } else {
        assert(s.remove(i).drop_last() =~= s.drop_last().remove(i));
        assert(s.remove(i).last() == s.last());
        lemma_sum_committed_remove(s.drop_last(), i);
    }
}

pub proof fn lemma_sum_staged_remove(s: Seq<StagedView>, i: int)
    requires
        0 <= i < s.len(),
    ensures
        sum_staged(s.remove(i)) == sum_staged(s) - staged_size(s[i]),
    decreases s.len(),
{
    if i == s.len() - 1 {
        assert(s.remove(i) =~= s.drop_last());
    } else {
        assert(s.remove(i).drop_last() =~= s.drop_last().remove(i));
        assert(s.remove(i).last() == s.last());
        lemma_sum_staged_remove(s.drop_last(), i);
    }
}

} // verus!
