//! Ghost-attachment garbage collection: attachments whose owning todo no
//! longer exists as a live record are removed from both stores, their
//! ownership references dropped, and the user's stored-byte total
//! recomputed.

use vstd::prelude::*;

use crate::records::{
    att_type, chunk_type, committed_belongs_to, staged_belongs_to, sum_committed, sum_staged,
    todo_type, CommittedView, RefView, StagedView,
};
use crate::store::{keys_wf, total_b64_of, StateView, SyncState, UserView};
use crate::strutil::{trim_of, trim_str};

verus! {

/// Options of a garbage-collection run.
#[derive(Debug, Clone, Copy)]
pub struct GhostGcOptions {
    /// When the user has no live todo at all, treat every stored
    /// attachment as a ghost even without a reference (the user-triggered
    /// mode).
    pub include_unreferenced_when_no_live_todo: bool,
    /// Ignore references updated more recently than this many
    /// milliseconds (0 or less disables the age filter).
    pub min_ref_age_ms: i64,
}

/// What a garbage-collection run did.
#[derive(Debug, Clone, Copy)]
pub struct GhostGcStats {
    pub deleted_attachments: i64,
    pub deleted_records: i64,
    pub stored_before: i64,
    pub stored_after: i64,
}

/// Index of the first occurrence of `c` at or after `i`.
pub open spec fn first_colon_like_from(s: Seq<char>, c: char, i: int) -> Option<int>
    decreases s.len() - i,
{
    if i < 0 || i >= s.len() {
        None
    } else if s[i] == c {
        Some(i)
    } else {
        first_colon_like_from(s, c, i + 1)
    }
}

/// Index of the first occurrence of `c`.
pub open spec fn first_colon_like(s: Seq<char>, c: char) -> Option<int> {
    first_colon_like_from(s, c, 0)
}

/// Index of the first `':'` at or after `i`.
pub open spec fn first_colon_from(s: Seq<char>, i: int) -> Option<int> {
    first_colon_like_from(s, ':', i)
}

pub open spec fn first_colon(s: Seq<char>) -> Option<int> {
    first_colon_like_from(s, ':', 0)
}

/// Is there a live todo with this record id?
pub open spec fn has_live_todo_for(c: Seq<CommittedView>, tid: Seq<char>) -> bool {
    exists|i: int|
        0 <= i < c.len() && (#[trigger] c[i]).rtype == todo_type() && c[i].rid == tid
            && c[i].deleted_at is None
}

/// Is there any live todo at all?
pub open spec fn has_any_live_todo(c: Seq<CommittedView>) -> bool {
    exists|i: int|
        0 <= i < c.len() && (#[trigger] c[i]).rtype == todo_type() && c[i].deleted_at is None
}

/// `now` minus the age threshold, saturating.
pub open spec fn spec_cutoff(now: i64, min_age: i64) -> int {
    if now - min_age < i64::MIN {
        i64::MIN as int
    } else if now - min_age > i64::MAX {
        i64::MAX as int
    } else {
        now - min_age
    }
}

/// Does this reference pass the age filter and point at a todo that is
/// gone or tombstoned?
pub open spec fn is_orphan_ref(
    c: Seq<CommittedView>,
    r: RefView,
    min_age: i64,
    now: i64,
) -> bool {
    (min_age <= 0 || r.updated_at <= spec_cutoff(now, min_age)) && !has_live_todo_for(c, r.todo_id)
}

/// Append a candidate id unless it is empty or already collected.
pub open spec fn dedup_push(acc: Seq<Seq<char>>, x: Seq<char>) -> Seq<Seq<char>> {
    if x.len() == 0 || acc.contains(x) {
        acc
    } else {
        acc.push(x)
    }
}

/// Candidate ids from orphaned references, in reference order.
pub open spec fn collect_ref_orphans(
    refs: Seq<RefView>,
    c: Seq<CommittedView>,
    min_age: i64,
    now: i64,
) -> Seq<Seq<char>>
    decreases refs.len(),
{
    if refs.len() == 0 {
        Seq::empty()
    } else {
        let acc = collect_ref_orphans(refs.drop_last(), c, min_age, now);
        if is_orphan_ref(c, refs.last(), min_age, now) {
            dedup_push(acc, trim_of(refs.last().attachment_id))
        } else {
            acc
        }
    }
}

/// Candidate ids from committed attachment metadata rows, appended in log
/// order.
pub open spec fn collect_fallback_meta(c: Seq<CommittedView>, acc0: Seq<Seq<char>>) -> Seq<
    Seq<char>,
>
    decreases c.len(),
{
    if c.len() == 0 {
        acc0
    } else {
        let acc = collect_fallback_meta(c.drop_last(), acc0);
        if c.last().rtype == att_type() {
            dedup_push(acc, trim_of(c.last().rid))
        } else {
            acc
        }
    }
}

/// Candidate ids from committed chunk rows: the part before the first
/// colon, appended in log order.
pub open spec fn collect_fallback_chunks(c: Seq<CommittedView>, acc0: Seq<Seq<char>>) -> Seq<
    Seq<char>,
>
    decreases c.len(),
{
    if c.len() == 0 {
        acc0
    } else {
        let acc = collect_fallback_chunks(c.drop_last(), acc0);
        if c.last().rtype == chunk_type() && first_colon(c.last().rid) is Some {
            dedup_push(acc, trim_of(c.last().rid.take(first_colon(c.last().rid).unwrap())))
        } else {
            acc
        }
    }
}

/// The full candidate list of one run.
pub open spec fn gc_candidates(st: StateView, opts: GhostGcOptions, now: i64) -> Seq<Seq<char>> {
    let base = collect_ref_orphans(st.refs, st.committed, opts.min_ref_age_ms, now);
    if opts.include_unreferenced_when_no_live_todo && !has_any_live_todo(st.committed) {
        collect_fallback_chunks(st.committed, collect_fallback_meta(st.committed, base))
    } else {
        base
    }
}

/// Remove one ghost attachment: its committed meta and chunk rows, its
/// staged rows, and its reference.
pub open spec fn spec_gc_one(st: StateView, aid: Seq<char>) -> (StateView, int) {
    let c2 = st.committed.filter(|r: CommittedView| !committed_belongs_to(r, aid));
    let s2 = st.staged.filter(|r: StagedView| !staged_belongs_to(r, aid));
    let rf2 = st.refs.filter(|r: RefView| r.attachment_id != aid);
    let deleted = st.committed.len() - c2.len() + st.staged.len() - s2.len();
    (StateView { committed: c2, staged: s2, refs: rf2, ..st }, deleted)
}

/// Remove a list of ghost attachments, counting attachments that had any
/// row and the rows removed.
pub open spec fn spec_gc_ids(st: StateView, ids: Seq<Seq<char>>) -> (StateView, int, int)
    decreases ids.len(),
{
    if ids.len() == 0 {
        (st, 0, 0)
    } else {
        let prev = spec_gc_ids(st, ids.drop_last());
        let one = spec_gc_one(prev.0, ids.last());
        (
            one.0,
            prev.1 + (if one.1 > 0 {
                1int
            } else {
                0int
            }),
            prev.2 + one.1,
        )
    }
}

/// Removing one attachment's rows preserves the key invariant.
pub proof fn lemma_gc_one_keys_wf(st: StateView, aid: Seq<char>)
    requires
        keys_wf(st),
    ensures
        keys_wf(spec_gc_one(st, aid).0),
        0 <= spec_gc_one(st, aid).1,
        total_b64_of(spec_gc_one(st, aid).0) <= total_b64_of(st),
{
    let ckeep = |r: CommittedView| !committed_belongs_to(r, aid);
    let skeep = |r: StagedView| !staged_belongs_to(r, aid);
    let rkeep = |r: RefView| r.attachment_id != aid;
    let c2 = st.committed.filter(ckeep);
    let s2 = st.staged.filter(skeep);
    let rf2 = st.refs.filter(rkeep);
    crate::attach::lemma_filter_embedding(st.committed, ckeep);
    crate::attach::lemma_filter_embedding(st.staged, skeep);
    crate::attach::lemma_filter_embedding(st.refs, rkeep);
    st.committed.lemma_filter_len(ckeep);
    st.staged.lemma_filter_len(skeep);
    lemma_sum_committed_filter_le(st.committed, ckeep);
    crate::attach::lemma_sum_filter_le(st.staged, skeep);
    assert forall|i: int|
        0 <= i < c2.len() implies 0 < (#[trigger] c2[i]).seq <= st.next_seq by {
        let j = choose|j: int| 0 <= j < st.committed.len() && c2[i] == st.committed[j];
        assert(0 < st.committed[j].seq <= st.next_seq);
    }
    assert forall|a: int, b: int|
        0 <= a < b < c2.len() implies (#[trigger] c2[a]).seq < (#[trigger] c2[b]).seq by {
        let (j1, j2) = choose|j1: int, j2: int|
            0 <= j1 < j2 < st.committed.len() && c2[a] == st.committed[j1] && c2[b]
                == st.committed[j2];
        assert(st.committed[j1].seq < st.committed[j2].seq);
    }
    assert forall|a: int, b: int|
        0 <= a < c2.len() && 0 <= b < c2.len() && a != b implies !crate::store::c_key_match(
        #[trigger] c2[a],
        (#[trigger] c2[b]).rtype,
        c2[b].rid,
    ) by {
        if a < b {
            let (j1, j2) = choose|j1: int, j2: int|
                0 <= j1 < j2 < st.committed.len() && c2[a] == st.committed[j1] && c2[b]
                    == st.committed[j2];
            assert(!crate::store::c_key_match(
                st.committed[j1],
                st.committed[j2].rtype,
                st.committed[j2].rid,
            ));
        } else {
            let (j1, j2) = choose|j1: int, j2: int|
                0 <= j1 < j2 < st.committed.len() && c2[b] == st.committed[j1] && c2[a]
                    == st.committed[j2];
            assert(!crate::store::c_key_match(
                st.committed[j2],
                st.committed[j1].rtype,
                st.committed[j1].rid,
            ));
        }
    }
    assert forall|a: int, b: int|
        0 <= a < s2.len() && 0 <= b < s2.len() && a != b implies !crate::store::s_key_match(
        #[trigger] s2[a],
        (#[trigger] s2[b]).rtype,
        s2[b].rid,
    ) by {
        if a < b {
            let (j1, j2) = choose|j1: int, j2: int|
                0 <= j1 < j2 < st.staged.len() && s2[a] == st.staged[j1] && s2[b] == st.staged[j2];
            assert(!crate::store::s_key_match(
                st.staged[j1],
                st.staged[j2].rtype,
                st.staged[j2].rid,
            ));
        } else {
            let (j1, j2) = choose|j1: int, j2: int|
                0 <= j1 < j2 < st.staged.len() && s2[b] == st.staged[j1] && s2[a] == st.staged[j2];
            assert(!crate::store::s_key_match(
                st.staged[j2],
                st.staged[j1].rtype,
                st.staged[j1].rid,
            ));
        }
    }
    assert forall|a: int| 0 <= a < s2.len() implies crate::records::is_stageable_type(
        (#[trigger] s2[a]).rtype,
    ) by {
        let j = choose|j: int| 0 <= j < st.staged.len() && s2[a] == st.staged[j];
        assert(crate::records::is_stageable_type(st.staged[j].rtype));
    }
    assert forall|a: int, b: int|
        0 <= a < c2.len() && 0 <= b < s2.len() implies !crate::store::c_key_match(
        #[trigger] c2[a],
        (#[trigger] s2[b]).rtype,
        s2[b].rid,
    ) by {
        let j1 = choose|j1: int| 0 <= j1 < st.committed.len() && c2[a] == st.committed[j1];
        let j2 = choose|j2: int| 0 <= j2 < st.staged.len() && s2[b] == st.staged[j2];
        assert(!crate::store::c_key_match(
            st.committed[j1],
            st.staged[j2].rtype,
            st.staged[j2].rid,
        ));
    }
    assert forall|a: int, b: int|
        0 <= a < rf2.len() && 0 <= b < rf2.len() && a != b implies (#[trigger] rf2[a]).attachment_id
            != (#[trigger] rf2[b]).attachment_id by {
        if a < b {
            let (j1, j2) = choose|j1: int, j2: int|
                0 <= j1 < j2 < st.refs.len() && rf2[a] == st.refs[j1] && rf2[b] == st.refs[j2];
            assert(st.refs[j1].attachment_id != st.refs[j2].attachment_id);
        } else {
            let (j1, j2) = choose|j1: int, j2: int|
                0 <= j1 < j2 < st.refs.len() && rf2[b] == st.refs[j1] && rf2[a] == st.refs[j2];
            assert(st.refs[j1].attachment_id != st.refs[j2].attachment_id);
        }
    }
}

/// Filtering never increases the committed stored bytes.
pub proof fn lemma_sum_committed_filter_le(
    s: Seq<CommittedView>,
    pred: spec_fn(CommittedView) -> bool,
)
    ensures
        sum_committed(s.filter(pred)) <= sum_committed(s),
        sum_committed(s.filter(pred)) >= 0,
    decreases s.len(),
{
    reveal(Seq::filter);
    if s.len() == 0 {
    } else {
        lemma_sum_committed_filter_le(s.drop_last(), pred);
        if pred(s.last()) {
            crate::records::lemma_sum_committed_push(s.drop_last().filter(pred), s.last());
        }
    }
}

/// Invariants and bounds over a whole candidate list.
pub proof fn lemma_gc_ids_props(st: StateView, ids: Seq<Seq<char>>)
    requires
        keys_wf(st),
    ensures
        keys_wf(spec_gc_ids(st, ids).0),
        0 <= spec_gc_ids(st, ids).1 <= ids.len(),
        0 <= spec_gc_ids(st, ids).2,
        total_b64_of(spec_gc_ids(st, ids).0) <= total_b64_of(st),
        spec_gc_ids(st, ids).0.committed.len() <= st.committed.len(),
        spec_gc_ids(st, ids).0.staged.len() <= st.staged.len(),
        spec_gc_ids(st, ids).2 == st.committed.len() - spec_gc_ids(st, ids).0.committed.len()
            + st.staged.len() - spec_gc_ids(st, ids).0.staged.len(),
        spec_gc_ids(st, ids).0.next_seq == st.next_seq,
        spec_gc_ids(st, ids).0.user == st.user,
    decreases ids.len(),
{
    if ids.len() > 0 {
        lemma_gc_ids_props(st, ids.drop_last());
        let prev = spec_gc_ids(st, ids.drop_last());
        lemma_gc_one_keys_wf(prev.0, ids.last());
        prev.0.committed.lemma_filter_len(
            |r: CommittedView| !committed_belongs_to(r, ids.last()),
        );
        prev.0.staged.lemma_filter_len(|r: StagedView| !staged_belongs_to(r, ids.last()));
        prev.0.refs.lemma_filter_len(|r: RefView| r.attachment_id != ids.last());
    }
}

fn vec_contains_id(ids: &Vec<String>, x: &String) -> (r: bool)
    ensures
        r == ids@.map_values(|s: String| s@).contains(x@),
{
    let ghost idv = ids@.map_values(|s: String| s@);
    let n = ids.len();
    let mut i: usize = 0;
    while i < n
        invariant
            0 <= i <= n,
            n == ids@.len(),
            idv == ids@.map_values(|s: String| s@),
            forall|j: int| 0 <= j < i ==> idv[j] != x@,
        decreases n - i,
    {
        if ids[i] == *x {
            proof {
                assert(idv[i as int] == x@);
            }
            return true;
        }
        i = i + 1;
    }
    proof {
        if idv.contains(x@) {
            let j = choose|j: int| 0 <= j < idv.len() && idv[j] == x@;
            assert(false);
        }
    }
    false
}

fn push_candidate(ids: &mut Vec<String>, x: String)
    ensures
        final(ids)@.map_values(|s: String| s@) == dedup_push(
            old(ids)@.map_values(|s: String| s@),
            x@,
        ),
{
    let ghost before = ids@.map_values(|s: String| s@);
    if x.as_str().unicode_len() == 0 || vec_contains_id(ids, &x) {
        proof {
            assert(final(ids)@.map_values(|s: String| s@) =~= dedup_push(before, x@));
        }
    } else {
        ids.push(x);
        proof {
            assert(final(ids)@.map_values(|s: String| s@) =~= before.push(x@));
            assert(final(ids)@.map_values(|s: String| s@) =~= dedup_push(before, x@));
        }
    }
}

/// Position of the first colon in a record id.
fn find_first_colon(s: &str) -> (r: Option<usize>)
    ensures
        match r {
            Some(i) => first_colon(s@) == Some(i as int) && i < s@.len(),
            None => first_colon(s@) is None,
        },
{
    let len = s.unicode_len();
    let mut i: usize = 0;
    while i < len
        invariant
            0 <= i <= len,
            len == s@.len(),
            first_colon(s@) == first_colon_from(s@, i as int),
        decreases len - i,
    {
        if s.get_char(i) == ':' {
            return Some(i);
        }
        i = i + 1;
    }
    None
}

impl SyncState {
    /// Is there a live (non-tombstoned) todo with this record id?
    pub fn has_live_todo_for_id(&self, todo_id: &String) -> (r: bool)
        ensures
            r == has_live_todo_for(self@.committed, todo_id@),
    {
        let n = self.committed.len();
        let mut i: usize = 0;
        while i < n
            invariant
                0 <= i <= n,
                n == self.committed.len(),
                forall|j: int|
                    0 <= j < i ==> !((#[trigger] self@.committed[j]).rtype == todo_type()
                        && self@.committed[j].rid == todo_id@ && self@.committed[j].deleted_at
                        is None),
            decreases n - i,
        {
            let row = &self.committed[i];
            if crate::strutil::str_eq(row.record_type.as_str(), "todo") && row.record_id
                == *todo_id && row.deleted_at_ms_utc.is_none() {
                proof {
                    assert(self@.committed[i as int].rtype == todo_type());
                }
                return true;
            }
            i = i + 1;
        }
        false
    }

    /// Does any reference past the age filter point at a missing or
    /// tombstoned todo? The sweeper uses this to pick users worth a run.
    pub fn has_orphan_attachment_ref(&self, min_ref_age_ms: i64, now_ms: i64) -> (r: bool)
        ensures
            r == exists|j: int|
                0 <= j < self@.refs.len() && is_orphan_ref(
                    self@.committed,
                    #[trigger] self@.refs[j],
                    min_ref_age_ms,
                    now_ms,
                ),
    {
        let cutoff: i64 = match now_ms.checked_sub(min_ref_age_ms) {
            Some(v) => v,
            None => if min_ref_age_ms > 0 {
                i64::MIN
            } else {
                i64::MAX
            },
        };
        let n = self.refs.len();
        let mut j: usize = 0;
        while j < n
            invariant
                0 <= j <= n,
                n == self.refs.len(),
                min_ref_age_ms > 0 ==> cutoff == spec_cutoff(now_ms, min_ref_age_ms),
                forall|k: int|
                    0 <= k < j ==> !is_orphan_ref(
                        self@.committed,
                        #[trigger] self@.refs[k],
                        min_ref_age_ms,
                        now_ms,
                    ),
            decreases n - j,
        {
            let r = &self.refs[j];
            let age_ok = min_ref_age_ms <= 0 || r.updated_at_ms_utc <= cutoff;
            if age_ok && !self.has_live_todo_for_id(&r.todo_id) {
                proof {
                    assert(is_orphan_ref(
                        self@.committed,
                        self@.refs[j as int],
                        min_ref_age_ms,
                        now_ms,
                    ));
                }
                return true;
            }
            j = j + 1;
        }
        false
    }

    /// Collect the candidate ghost-attachment ids of one run.
    fn collect_gc_candidates(&self, opts: GhostGcOptions, now_ms: i64) -> (r: Vec<String>)
        ensures
            r@.map_values(|s: String| s@) == gc_candidates(self@, opts, now_ms),
    {
        let cutoff: i64 = match now_ms.checked_sub(opts.min_ref_age_ms) {
            Some(v) => v,
            None => if opts.min_ref_age_ms > 0 {
                i64::MIN
            } else {
                i64::MAX
            },
        };
        let mut ids: Vec<String> = Vec::new();
        let nr = self.refs.len();
        let mut j: usize = 0;
        proof {
            assert(self@.refs.take(0) =~= Seq::<RefView>::empty());
        }
        while j < nr
            invariant
                0 <= j <= nr,
                nr == self.refs.len(),
                opts.min_ref_age_ms > 0 ==> cutoff == spec_cutoff(now_ms, opts.min_ref_age_ms),
                ids@.map_values(|s: String| s@) == collect_ref_orphans(
                    self@.refs.take(j as int),
                    self@.committed,
                    opts.min_ref_age_ms,
                    now_ms,
                ),
            decreases nr - j,
        {
            proof {
                assert(self@.refs.take(j as int + 1).drop_last() =~= self@.refs.take(j as int));
                assert(self@.refs.take(j as int + 1).last() == self@.refs[j as int]);
            }
            let r = &self.refs[j];
            let age_ok = opts.min_ref_age_ms <= 0 || r.updated_at_ms_utc <= cutoff;
            let orphan = age_ok && !self.has_live_todo_for_id(&r.todo_id);
            proof {
                assert(orphan == is_orphan_ref(
                    self@.committed,
                    self@.refs[j as int],
                    opts.min_ref_age_ms,
                    now_ms,
                ));
            }
            if orphan {
                let t = trim_str(r.attachment_id.as_str()).to_owned();
                proof {
                    assert(t@ == trim_of(self@.refs[j as int].attachment_id));
                }
                push_candidate(&mut ids, t);
            }
            j = j + 1;
        }
        proof {
            assert(self@.refs.take(nr as int) =~= self@.refs);
        }
        if opts.include_unreferenced_when_no_live_todo && !self.has_live_todo() {
            proof {
                assert(!has_any_live_todo(self@.committed)) by {
                    if has_any_live_todo(self@.committed) {
                        let i = choose|i: int|
                            0 <= i < self@.committed.len() && (#[trigger] self@.committed[i]).rtype
                                == todo_type() && self@.committed[i].deleted_at is None;
                        assert(false);
                    }
                }
            }
            let nc = self.committed.len();
            let mut i: usize = 0;
            let ghost base = ids@.map_values(|s: String| s@);
            proof {
                assert(self@.committed.take(0) =~= Seq::<CommittedView>::empty());
            }
            while i < nc
                invariant
                    0 <= i <= nc,
                    nc == self.committed.len(),
                    ids@.map_values(|s: String| s@) == collect_fallback_meta(
                        self@.committed.take(i as int),
                        base,
                    ),
                decreases nc - i,
            {
                proof {
                    assert(self@.committed.take(i as int + 1).drop_last() =~= self@.committed.take(
                        i as int,
                    ));
                    assert(self@.committed.take(i as int + 1).last() == self@.committed[i as int]);
                }
                let row = &self.committed[i];
                if crate::strutil::str_eq(row.record_type.as_str(), "todo_attachment") {
                    let t = trim_str(row.record_id.as_str()).to_owned();
                    push_candidate(&mut ids, t);
                }
                i = i + 1;
            }
            proof {
                assert(self@.committed.take(nc as int) =~= self@.committed);
            }
            let ghost base2 = ids@.map_values(|s: String| s@);
            let mut i2: usize = 0;
            proof {
                assert(self@.committed.take(0) =~= Seq::<CommittedView>::empty());
            }
            while i2 < nc
                invariant
                    0 <= i2 <= nc,
                    nc == self.committed.len(),
                    ids@.map_values(|s: String| s@) == collect_fallback_chunks(
                        self@.committed.take(i2 as int),
                        base2,
                    ),
                decreases nc - i2,
            {
                proof {
                    assert(self@.committed.take(i2 as int + 1).drop_last()
                        =~= self@.committed.take(i2 as int));
                    assert(self@.committed.take(i2 as int + 1).last() == self@.committed[i2 as int]);
                }
                let row = &self.committed[i2];
                if crate::strutil::str_eq(row.record_type.as_str(), "todo_attachment_chunk") {
                    match find_first_colon(row.record_id.as_str()) {
                        Some(k) => {
                            let pre = row.record_id.as_str().substring_char(0, k);
                            let t = trim_str(pre).to_owned();
                            proof {
                                assert(pre@ =~= self@.committed[i2 as int].rid.take(
                                    first_colon(self@.committed[i2 as int].rid).unwrap(),
                                ));
                            }
                            push_candidate(&mut ids, t);
                        },
                        None => {},
                    }
                }
                i2 = i2 + 1;
            }
            proof {
                assert(self@.committed.take(nc as int) =~= self@.committed);
            }
        }
        ids
    }

    /// Remove every committed row of one attachment; report how many.
    fn delete_committed_attachment(&mut self, aid: &String) -> (r: i64)
        requires
            old(self)@.committed.len() < i64::MAX,
        ensures
            final(self)@ == (StateView {
                committed: old(self)@.committed.filter(
                    |x: CommittedView| !committed_belongs_to(x, aid@),
                ),
                ..old(self)@
            }),
            r == old(self)@.committed.len() - final(self)@.committed.len(),
            0 <= r,
    {
        proof {
            reveal(Seq::filter);
        }
        let ghost keep = |x: CommittedView| !committed_belongs_to(x, aid@);
        let pattern = aid.clone().concat(":");
        proof {
            reveal_strlit(":");
            assert(pattern@ =~= crate::records::chunk_prefix(aid@));
        }
        let mut kept: Vec<crate::records::CommittedRecord> = Vec::new();
        let mut removed: i64 = 0;
        let n = self.committed.len();
        let mut i: usize = 0;
        while i < n
            invariant
                0 <= i <= n,
                self@ == old(self)@,
                n == self.committed.len(),
                n < i64::MAX,
                pattern@ == crate::records::chunk_prefix(aid@),
                keep == (|x: CommittedView| !committed_belongs_to(x, aid@)),
                kept@.map_values(|x: crate::records::CommittedRecord| x@)
                    =~= self@.committed.take(i as int).filter(keep),
                removed == i - kept@.len(),
                0 <= removed <= i,
            decreases n - i,
        {
            proof {
                reveal(Seq::filter);
                assert(self@.committed.take(i as int + 1).drop_last() =~= self@.committed.take(
                    i as int,
                ));
                assert(self@.committed.take(i as int + 1).last() == self@.committed[i as int]);
            }
            let row = &self.committed[i];
            let is_meta = crate::strutil::str_eq(row.record_type.as_str(), "todo_attachment")
                && row.record_id == *aid;
            let is_chunk = crate::strutil::str_eq(
                row.record_type.as_str(),
                "todo_attachment_chunk",
            ) && crate::strutil::starts_with(row.record_id.as_str(), pattern.as_str());
            let ghost rv = self@.committed[i as int];
            if is_meta || is_chunk {
                proof {
                    assert(committed_belongs_to(rv, aid@));
                }
                removed = removed + 1;
            } else {
                proof {
                    assert(!committed_belongs_to(rv, aid@));
                }
                let cl = row.clone();
                kept.push(cl);
                proof {
                    assert(kept@.map_values(|x: crate::records::CommittedRecord| x@)
                        =~= self@.committed.take(i as int + 1).filter(keep));
                }
            }
            i = i + 1;
        }
        proof {
            assert(self@.committed.take(n as int) =~= self@.committed);
        }
        self.committed = kept;
        proof {
            assert(final(self)@ =~= (StateView {
                committed: old(self)@.committed.filter(keep),
                ..old(self)@
            }));
        }
        removed
    }

    /// Remove the reference rows of one attachment.
    fn remove_refs_for(&mut self, aid: &String)
        ensures
            final(self)@ == (StateView {
                refs: old(self)@.refs.filter(|x: RefView| x.attachment_id != aid@),
                ..old(self)@
            }),
    {
        proof {
            reveal(Seq::filter);
        }
        let ghost keep = |x: RefView| x.attachment_id != aid@;
        let mut kept: Vec<crate::records::AttachmentRef> = Vec::new();
        let n = self.refs.len();
        let mut i: usize = 0;
        while i < n
            invariant
                0 <= i <= n,
                self@ == old(self)@,
                n == self.refs.len(),
                keep == (|x: RefView| x.attachment_id != aid@),
                kept@.map_values(|x: crate::records::AttachmentRef| x@) =~= self@.refs.take(
                    i as int,
                ).filter(keep),
            decreases n - i,
        {
            proof {
                reveal(Seq::filter);
                assert(self@.refs.take(i as int + 1).drop_last() =~= self@.refs.take(i as int));
                assert(self@.refs.take(i as int + 1).last() == self@.refs[i as int]);
            }
            let row = &self.refs[i];
            if row.attachment_id == *aid {
            } else {
                let cl = row.clone();
                kept.push(cl);
                proof {
                    assert(kept@.map_values(|x: crate::records::AttachmentRef| x@)
                        =~= self@.refs.take(i as int + 1).filter(keep));
                }
            }
            i = i + 1;
        }
        proof {
            assert(self@.refs.take(n as int) =~= self@.refs);
        }
        self.refs = kept;
        proof {
            assert(final(self)@ =~= (StateView {
                refs: old(self)@.refs.filter(keep),
                ..old(self)@
            }));
        }
    }

    /// Garbage-collect ghost attachments, with the stored-byte total
    /// before the run supplied by the caller.
    pub fn gc_ghost_files_for_user_with_stored_before(
        &mut self,
        stored_before: i64,
        opts: GhostGcOptions,
        now_ms: i64,
    ) -> (r: GhostGcStats)
        requires
            crate::store::wf(old(self)@),
            old(self)@.committed.len() + old(self)@.staged.len() < i64::MAX - 1,
        ensures
            ({
                let ids = gc_candidates(old(self)@, opts, now_ms);
                let out = spec_gc_ids(old(self)@, ids);
                &&& final(self)@ == (StateView {
                    user: UserView { stored_b64: total_b64_of(out.0) as i64, ..old(self)@.user },
                    ..out.0
                })
                &&& r.deleted_attachments == out.1
                &&& r.deleted_records == out.2
                &&& r.stored_before == stored_before
                &&& r.stored_after == total_b64_of(final(self)@)
                &&& crate::store::wf(final(self)@)
            }),
    {
        let ids = self.collect_gc_candidates(opts, now_ms);
        let ghost idv = ids@.map_values(|s: String| s@);
        let ghost st0 = self@;
        let mut deleted_attachments: i64 = 0;
        let mut deleted_records: i64 = 0;
        let n = ids.len();
        let mut k: usize = 0;
        proof {
            assert(idv.take(0) =~= Seq::<Seq<char>>::empty());
            lemma_gc_ids_props(st0, idv.take(0));
        }
        while k < n
            invariant
                0 <= k <= n,
                n == ids@.len(),
                idv == ids@.map_values(|s: String| s@),
                crate::store::wf(st0),
                st0.committed.len() + st0.staged.len() < i64::MAX - 1,
                ({
                    let out = spec_gc_ids(st0, idv.take(k as int));
                    &&& self@ == out.0
                    &&& deleted_attachments == out.1
                    &&& deleted_records == out.2
                }),
                keys_wf(self@),
                self@.committed.len() <= st0.committed.len(),
                self@.staged.len() <= st0.staged.len(),
                total_b64_of(self@) <= total_b64_of(st0),
                deleted_records == st0.committed.len() - self@.committed.len() + st0.staged.len()
                    - self@.staged.len(),
                0 <= deleted_attachments <= deleted_records,
                0 <= deleted_records,
            decreases n - k,
        {
            proof {
                assert(idv.take(k as int + 1).drop_last() =~= idv.take(k as int));
                assert(idv.take(k as int + 1).last() == idv[k as int]);
                lemma_gc_one_keys_wf(self@, idv[k as int]);
                crate::records::lemma_sum_staged_nonneg(self@.staged);
                crate::records::lemma_sum_committed_nonneg(self@.committed);
            }
            let aid = &ids[k];
            proof {
                assert(aid@ == idv[k as int]);
            }
            let ghost before = self@;
            let c_removed = self.delete_committed_attachment(aid);
            let (s_removed, _bytes) = self.delete_staged_attachment(aid);
            self.remove_refs_for(aid);
            let removed: i64 = c_removed + s_removed;
            proof {
                assert(self@ =~= spec_gc_one(before, idv[k as int]).0);
                assert(removed == spec_gc_one(before, idv[k as int]).1);
            }
            if removed > 0 {
                deleted_attachments = deleted_attachments + 1;
            }
            deleted_records = deleted_records + removed;
            k = k + 1;
        }
        proof {
            assert(idv.take(n as int) =~= idv);
            lemma_gc_ids_props(st0, idv);
        }
        let stored_after = self.compute_total_b64();
        self.user.stored_b64 = stored_after;
        proof {
            let out = spec_gc_ids(st0, idv);
            assert(final(self)@ =~= (StateView {
                user: UserView { stored_b64: total_b64_of(out.0) as i64, ..st0.user },
                ..out.0
            }));
        }
        GhostGcStats { deleted_attachments, deleted_records, stored_before, stored_after }
    }

    /// Garbage-collect ghost attachments, reading the stored-byte total
    /// before the run from the user row.
    pub fn gc_ghost_files_for_user(&mut self, opts: GhostGcOptions, now_ms: i64) -> (r:
        GhostGcStats)
        requires
            crate::store::wf(old(self)@),
            old(self)@.committed.len() + old(self)@.staged.len() < i64::MAX - 1,
        ensures
            ({
                let ids = gc_candidates(old(self)@, opts, now_ms);
                let out = spec_gc_ids(old(self)@, ids);
                &&& final(self)@ == (StateView {
                    user: UserView { stored_b64: total_b64_of(out.0) as i64, ..old(self)@.user },
                    ..out.0
                })
                &&& r.deleted_attachments == out.1
                &&& r.deleted_records == out.2
                &&& r.stored_before == old(self)@.user.stored_b64
                &&& r.stored_after == total_b64_of(final(self)@)
                &&& crate::store::wf(final(self)@)
            }),
    {
        let stored_before = self.user.stored_b64;
        self.gc_ghost_files_for_user_with_stored_before(stored_before, opts, now_ms)
    }
}

/// A filter that keeps every element changes nothing.
proof fn lemma_filter_all_keep<A>(s: Seq<A>, pred: spec_fn(A) -> bool)
    requires
        forall|i: int| 0 <= i < s.len() ==> pred(#[trigger] s[i]),
    ensures
        s.filter(pred) =~= s,
    decreases s.len(),
{
    reveal(Seq::filter);
    if s.len() > 0 {
        assert(forall|i: int| 0 <= i < s.len() - 1 ==> s.drop_last()[i] == s[i]);
        lemma_filter_all_keep(s.drop_last(), pred);
    }
}

/// Nothing of this attachment remains: no committed or staged row belongs
/// to it and no reference names it.
pub open spec fn cleansed(st: StateView, aid: Seq<char>) -> bool {
    &&& forall|i: int|
        0 <= i < st.committed.len() ==> !committed_belongs_to(#[trigger] st.committed[i], aid)
    &&& forall|i: int| 0 <= i < st.staged.len() ==> !staged_belongs_to(#[trigger] st.staged[i], aid)
    &&& forall|i: int| 0 <= i < st.refs.len() ==> (#[trigger] st.refs[i]).attachment_id != aid
}

/// Collecting a cleansed attachment is a no-op.
proof fn lemma_gc_one_noop(st: StateView, aid: Seq<char>)
    requires
        cleansed(st, aid),
    ensures
        spec_gc_one(st, aid).0 =~= st,
        spec_gc_one(st, aid).1 == 0,
{
    lemma_filter_all_keep(st.committed, |r: CommittedView| !committed_belongs_to(r, aid));
    lemma_filter_all_keep(st.staged, |r: StagedView| !staged_belongs_to(r, aid));
    lemma_filter_all_keep(st.refs, |r: RefView| r.attachment_id != aid);
}

/// Collecting a list of cleansed attachments is a no-op.
proof fn lemma_gc_ids_noop(st: StateView, ids: Seq<Seq<char>>)
    requires
        forall|k: int| 0 <= k < ids.len() ==> cleansed(st, #[trigger] ids[k]),
    ensures
        spec_gc_ids(st, ids).0 =~= st,
        spec_gc_ids(st, ids).1 == 0,
        spec_gc_ids(st, ids).2 == 0,
    decreases ids.len(),
{
    if ids.len() > 0 {
        lemma_gc_ids_noop(st, ids.drop_last());
        let prev = spec_gc_ids(st, ids.drop_last());
        assert(prev.0 =~= st);
        lemma_gc_one_noop(st, ids.last());
        assert(spec_gc_one(prev.0, ids.last()) == spec_gc_one(st, ids.last()));
        assert(spec_gc_ids(st, ids).0 =~= st);
    }
}

/// A run cleanses every attachment of its list, and cleansing survives
/// the rest of the run.
proof fn lemma_gc_ids_cleanses(st: StateView, ids: Seq<Seq<char>>)
    ensures
        forall|k: int| 0 <= k < ids.len() ==> cleansed(spec_gc_ids(st, ids).0, #[trigger] ids[k]),
    decreases ids.len(),
{
    if ids.len() > 0 {
        let dl = ids.drop_last();
        lemma_gc_ids_cleanses(st, dl);
        let prev = spec_gc_ids(st, dl);
        let aid = ids.last();
        let out = spec_gc_one(prev.0, aid);
        let ckeep = |r: CommittedView| !committed_belongs_to(r, aid);
        let skeep = |r: StagedView| !staged_belongs_to(r, aid);
        let rkeep = |r: RefView| r.attachment_id != aid;
        crate::attach::lemma_filter_embedding(prev.0.committed, ckeep);
        crate::attach::lemma_filter_embedding(prev.0.staged, skeep);
        crate::attach::lemma_filter_embedding(prev.0.refs, rkeep);
        prev.0.committed.filter_lemma(ckeep);
        prev.0.staged.filter_lemma(skeep);
        prev.0.refs.filter_lemma(rkeep);
        assert forall|k: int| 0 <= k < ids.len() implies cleansed(
            spec_gc_ids(st, ids).0,
            #[trigger] ids[k],
        ) by {
            if k == ids.len() - 1 {
                assert(cleansed(out.0, aid));
            } else {
                // Cleansing of an earlier id survives further filtering.
                assert(ids.drop_last()[k] == ids[k]);
                assert(cleansed(prev.0, ids[k]));
                assert forall|i: int|
                    0 <= i < out.0.committed.len() implies !committed_belongs_to(
                    #[trigger] out.0.committed[i],
                    ids[k],
                ) by {
                    let j = choose|j: int|
                        0 <= j < prev.0.committed.len() && out.0.committed[i]
                            == prev.0.committed[j];
                    assert(!committed_belongs_to(prev.0.committed[j], ids[k]));
                }
                assert forall|i: int|
                    0 <= i < out.0.staged.len() implies !staged_belongs_to(
                    #[trigger] out.0.staged[i],
                    ids[k],
                ) by {
                    let j = choose|j: int|
                        0 <= j < prev.0.staged.len() && out.0.staged[i] == prev.0.staged[j];
                    assert(!staged_belongs_to(prev.0.staged[j], ids[k]));
                }
                assert forall|i: int|
                    0 <= i < out.0.refs.len() implies (#[trigger] out.0.refs[i]).attachment_id
                    != ids[k] by {
                    let j = choose|j: int|
                        0 <= j < prev.0.refs.len() && out.0.refs[i] == prev.0.refs[j];
                    assert(prev.0.refs[j].attachment_id != ids[k]);
                }
                assert(cleansed(out.0, ids[k]));
            }
        }
    }
}

/// Every element of `a` occurs in `b`.
pub open spec fn subseq_of_c(a: Seq<CommittedView>, b: Seq<CommittedView>) -> bool {
    forall|i: int| 0 <= i < a.len() ==> b.contains(#[trigger] a[i])
}

/// Staged analogue of `subseq_of_c`.
pub open spec fn subseq_of_s(a: Seq<StagedView>, b: Seq<StagedView>) -> bool {
    forall|i: int| 0 <= i < a.len() ==> b.contains(#[trigger] a[i])
}

/// Reference analogue of `subseq_of_c`.
pub open spec fn subseq_of_r(a: Seq<RefView>, b: Seq<RefView>) -> bool {
    forall|i: int| 0 <= i < a.len() ==> b.contains(#[trigger] a[i])
}

/// Every row a run leaves was already present: the run only removes.
proof fn lemma_gc_ids_subset(st: StateView, ids: Seq<Seq<char>>)
    ensures
        subseq_of_c(spec_gc_ids(st, ids).0.committed, st.committed),
        subseq_of_s(spec_gc_ids(st, ids).0.staged, st.staged),
        subseq_of_r(spec_gc_ids(st, ids).0.refs, st.refs),
    decreases ids.len(),
{
    if ids.len() == 0 {
        let out = spec_gc_ids(st, ids);
        assert forall|i: int| 0 <= i < out.0.committed.len() implies st.committed.contains(
            #[trigger] out.0.committed[i],
        ) by {
            assert(out.0.committed[i] == st.committed[i]);
        }
        assert forall|i: int| 0 <= i < out.0.staged.len() implies st.staged.contains(
            #[trigger] out.0.staged[i],
        ) by {
            assert(out.0.staged[i] == st.staged[i]);
        }
        assert forall|i: int| 0 <= i < out.0.refs.len() implies st.refs.contains(
            #[trigger] out.0.refs[i],
        ) by {
            assert(out.0.refs[i] == st.refs[i]);
        }
    } else {
        let dl = ids.drop_last();
        lemma_gc_ids_subset(st, dl);
        let prev = spec_gc_ids(st, dl);
        assert(subseq_of_c(prev.0.committed, st.committed));
        assert(subseq_of_s(prev.0.staged, st.staged));
        assert(subseq_of_r(prev.0.refs, st.refs));
        let aid = ids.last();
        let out = spec_gc_ids(st, ids);
        let ckeep = |r: CommittedView| !committed_belongs_to(r, aid);
        let skeep = |r: StagedView| !staged_belongs_to(r, aid);
        let rkeep = |r: RefView| r.attachment_id != aid;
        crate::attach::lemma_filter_embedding(prev.0.committed, ckeep);
        crate::attach::lemma_filter_embedding(prev.0.staged, skeep);
        crate::attach::lemma_filter_embedding(prev.0.refs, rkeep);
        assert(out.0.committed == prev.0.committed.filter(ckeep));
        assert(out.0.staged == prev.0.staged.filter(skeep));
        assert(out.0.refs == prev.0.refs.filter(rkeep));
        assert forall|i: int| 0 <= i < out.0.committed.len() implies st.committed.contains(
            #[trigger] out.0.committed[i],
        ) by {
            assert(out.0.committed[i] == prev.0.committed.filter(ckeep)[i]);
            let m = choose|m: int|
                0 <= m < prev.0.committed.len() && prev.0.committed.filter(ckeep)[i]
                    == prev.0.committed[m];
            assert(st.committed.contains(prev.0.committed[m]));
        }
        assert forall|i: int| 0 <= i < out.0.staged.len() implies st.staged.contains(
            #[trigger] out.0.staged[i],
        ) by {
            assert(out.0.staged[i] == prev.0.staged.filter(skeep)[i]);
            let m = choose|m: int|
                0 <= m < prev.0.staged.len() && prev.0.staged.filter(skeep)[i]
                    == prev.0.staged[m];
            assert(st.staged.contains(prev.0.staged[m]));
        }
        assert forall|i: int| 0 <= i < out.0.refs.len() implies st.refs.contains(
            #[trigger] out.0.refs[i],
        ) by {
            assert(out.0.refs[i] == prev.0.refs.filter(rkeep)[i]);
            let m = choose|m: int|
                0 <= m < prev.0.refs.len() && prev.0.refs.filter(rkeep)[i] == prev.0.refs[m];
            assert(st.refs.contains(prev.0.refs[m]));
        }
    }
}

/// Live todos survive a run: the collected rows are attachment rows only.
proof fn lemma_gc_ids_keeps_live_todo(st: StateView, ids: Seq<Seq<char>>, tid: Seq<char>)
    requires
        has_live_todo_for(st.committed, tid),
    ensures
        has_live_todo_for(spec_gc_ids(st, ids).0.committed, tid),
    decreases ids.len(),
{
    crate::records::lemma_types_distinct();
    if ids.len() > 0 {
        let dl = ids.drop_last();
        lemma_gc_ids_keeps_live_todo(st, dl, tid);
        let prev = spec_gc_ids(st, dl);
        let aid = ids.last();
        let ckeep = |r: CommittedView| !committed_belongs_to(r, aid);
        prev.0.committed.filter_lemma(ckeep);
        let w = choose|w: int|
            0 <= w < prev.0.committed.len() && (#[trigger] prev.0.committed[w]).rtype
                == todo_type() && prev.0.committed[w].rid == tid && prev.0.committed[w].deleted_at
                is None;
        assert(ckeep(prev.0.committed[w]));
        assert(prev.0.committed.filter(ckeep).contains(prev.0.committed[w]));
        let m = choose|m: int|
            0 <= m < prev.0.committed.filter(ckeep).len() && prev.0.committed.filter(ckeep)[m]
                == prev.0.committed[w];
        assert(has_live_todo_for(spec_gc_ids(st, ids).0.committed, tid));
    }
}

proof fn lemma_dedup_keeps(acc: Seq<Seq<char>>, x: Seq<char>, y: Seq<char>)
    requires
        acc.contains(y),
    ensures
        dedup_push(acc, x).contains(y),
{
    let j = choose|j: int| 0 <= j < acc.len() && acc[j] == y;
    assert(dedup_push(acc, x)[j] == y);
}

proof fn lemma_dedup_adds(acc: Seq<Seq<char>>, x: Seq<char>)
    requires
        x.len() > 0,
    ensures
        dedup_push(acc, x).contains(x),
{
    if acc.contains(x) {
    } else {
        assert(dedup_push(acc, x)[acc.len() as int] == x);
    }
}

/// The reference collector gathers every orphaned reference's id.
proof fn lemma_collect_refs_contains(
    refs: Seq<RefView>,
    c: Seq<CommittedView>,
    min_age: i64,
    now: i64,
    j: int,
)
    requires
        0 <= j < refs.len(),
        is_orphan_ref(c, refs[j], min_age, now),
        trim_of(refs[j].attachment_id).len() > 0,
    ensures
        collect_ref_orphans(refs, c, min_age, now).contains(trim_of(refs[j].attachment_id)),
    decreases refs.len(),
{
    let acc = collect_ref_orphans(refs.drop_last(), c, min_age, now);
    if j == refs.len() - 1 {
        lemma_dedup_adds(acc, trim_of(refs[j].attachment_id));
    } else {
        assert(refs.drop_last()[j] == refs[j]);
        lemma_collect_refs_contains(refs.drop_last(), c, min_age, now, j);
        if is_orphan_ref(c, refs.last(), min_age, now) {
            lemma_dedup_keeps(
                acc,
                trim_of(refs.last().attachment_id),
                trim_of(refs[j].attachment_id),
            );
        }
    }
}

/// An element of the reference collector's output stems from an orphaned
/// reference.
proof fn lemma_collect_refs_inv(
    refs: Seq<RefView>,
    c: Seq<CommittedView>,
    min_age: i64,
    now: i64,
    x: Seq<char>,
)
    requires
        collect_ref_orphans(refs, c, min_age, now).contains(x),
    ensures
        x.len() > 0 && exists|j: int|
            0 <= j < refs.len() && is_orphan_ref(c, #[trigger] refs[j], min_age, now) && trim_of(
                refs[j].attachment_id,
            ) == x,
    decreases refs.len(),
{
    let acc = collect_ref_orphans(refs.drop_last(), c, min_age, now);
    if refs.len() == 0 {
        assert(false);
    } else if is_orphan_ref(c, refs.last(), min_age, now) && !acc.contains(x) && dedup_push(
        acc,
        trim_of(refs.last().attachment_id),
    ).contains(x) {
        // The new element is the last reference's id.
        if trim_of(refs.last().attachment_id).len() == 0 || acc.contains(
            trim_of(refs.last().attachment_id),
        ) {
            assert(acc.contains(x));
            assert(false);
        } else {
            let m = choose|m: int|
                0 <= m < dedup_push(acc, trim_of(refs.last().attachment_id)).len() && dedup_push(
                    acc,
                    trim_of(refs.last().attachment_id),
                )[m] == x;
            if m < acc.len() {
                assert(acc[m] == x);
                assert(false);
            } else {
                assert(x == trim_of(refs.last().attachment_id));
                assert(refs[refs.len() - 1] == refs.last());
            }
        }
    } else {
        if !(is_orphan_ref(c, refs.last(), min_age, now)) {
            lemma_collect_refs_inv(refs.drop_last(), c, min_age, now, x);
            let j = choose|j: int|
                0 <= j < refs.drop_last().len() && is_orphan_ref(
                    c,
                    #[trigger] refs.drop_last()[j],
                    min_age,
                    now,
                ) && trim_of(refs.drop_last()[j].attachment_id) == x;
            assert(refs[j] == refs.drop_last()[j]);
        } else {
            if acc.contains(x) {
                lemma_collect_refs_inv(refs.drop_last(), c, min_age, now, x);
                let j = choose|j: int|
                    0 <= j < refs.drop_last().len() && is_orphan_ref(
                        c,
                        #[trigger] refs.drop_last()[j],
                        min_age,
                        now,
                    ) && trim_of(refs.drop_last()[j].attachment_id) == x;
                assert(refs[j] == refs.drop_last()[j]);
            } else {
                assert(dedup_push(acc, trim_of(refs.last().attachment_id)).contains(x));
            }
        }
    }
}

/// Any live todo survives a run.
proof fn lemma_gc_ids_keeps_any_live(st: StateView, ids: Seq<Seq<char>>)
    requires
        has_any_live_todo(st.committed),
    ensures
        has_any_live_todo(spec_gc_ids(st, ids).0.committed),
    decreases ids.len(),
{
    crate::records::lemma_types_distinct();
    if ids.len() > 0 {
        let dl = ids.drop_last();
        lemma_gc_ids_keeps_any_live(st, dl);
        let prev = spec_gc_ids(st, dl);
        let aid = ids.last();
        let ckeep = |r: CommittedView| !committed_belongs_to(r, aid);
        prev.0.committed.filter_lemma(ckeep);
        let w = choose|w: int|
            0 <= w < prev.0.committed.len() && (#[trigger] prev.0.committed[w]).rtype
                == todo_type() && prev.0.committed[w].deleted_at is None;
        assert(ckeep(prev.0.committed[w]));
        assert(prev.0.committed.filter(ckeep).contains(prev.0.committed[w]));
        let m = choose|m: int|
            0 <= m < prev.0.committed.filter(ckeep).len() && prev.0.committed.filter(ckeep)[m]
                == prev.0.committed[w];
        assert(has_any_live_todo(spec_gc_ids(st, ids).0.committed));
    }
}

/// The metadata collector keeps what it is given.
proof fn lemma_fb_meta_keeps(c: Seq<CommittedView>, acc0: Seq<Seq<char>>, y: Seq<char>)
    requires
        acc0.contains(y),
    ensures
        collect_fallback_meta(c, acc0).contains(y),
    decreases c.len(),
{
    if c.len() > 0 {
        lemma_fb_meta_keeps(c.drop_last(), acc0, y);
        if c.last().rtype == att_type() {
            lemma_dedup_keeps(
                collect_fallback_meta(c.drop_last(), acc0),
                trim_of(c.last().rid),
                y,
            );
        }
    }
}

/// The metadata collector gathers every attachment row's trimmed id.
proof fn lemma_fb_meta_contains(c: Seq<CommittedView>, acc0: Seq<Seq<char>>, j: int)
    requires
        0 <= j < c.len(),
        c[j].rtype == att_type(),
        trim_of(c[j].rid).len() > 0,
    ensures
        collect_fallback_meta(c, acc0).contains(trim_of(c[j].rid)),
    decreases c.len(),
{
    let acc = collect_fallback_meta(c.drop_last(), acc0);
    if j == c.len() - 1 {
        lemma_dedup_adds(acc, trim_of(c[j].rid));
    } else {
        assert(c.drop_last()[j] == c[j]);
        lemma_fb_meta_contains(c.drop_last(), acc0, j);
        if c.last().rtype == att_type() {
            lemma_dedup_keeps(acc, trim_of(c.last().rid), trim_of(c[j].rid));
        }
    }
}

/// An element of the metadata collector's output was given or stems from
/// an attachment row.
proof fn lemma_fb_meta_inv(c: Seq<CommittedView>, acc0: Seq<Seq<char>>, x: Seq<char>)
    requires
        collect_fallback_meta(c, acc0).contains(x),
    ensures
        acc0.contains(x) || (x.len() > 0 && exists|j: int|
            0 <= j < c.len() && (#[trigger] c[j]).rtype == att_type() && trim_of(c[j].rid) == x),
    decreases c.len(),
{
    if c.len() == 0 {
    } else {
        let acc = collect_fallback_meta(c.drop_last(), acc0);
        if c.last().rtype == att_type() && !acc.contains(x) {
            let y = trim_of(c.last().rid);
            if y.len() == 0 || acc.contains(y) {
                assert(false);
            } else {
                let m = choose|m: int|
                    0 <= m < dedup_push(acc, y).len() && dedup_push(acc, y)[m] == x;
                if m < acc.len() {
                    assert(acc[m] == x);
                    assert(false);
                } else {
                    assert(x == y);
                    assert(c[c.len() - 1] == c.last());
                }
            }
        } else {
            lemma_fb_meta_inv(c.drop_last(), acc0, x);
            if !acc0.contains(x) {
                let j = choose|j: int|
                    0 <= j < c.drop_last().len() && (#[trigger] c.drop_last()[j]).rtype
                        == att_type() && trim_of(c.drop_last()[j].rid) == x;
                assert(c[j] == c.drop_last()[j]);
            }
        }
    }
}

/// The chunk-prefix collector keeps what it is given.
proof fn lemma_fb_chunks_keeps(c: Seq<CommittedView>, acc0: Seq<Seq<char>>, y: Seq<char>)
    requires
        acc0.contains(y),
    ensures
        collect_fallback_chunks(c, acc0).contains(y),
    decreases c.len(),
{
    if c.len() > 0 {
        lemma_fb_chunks_keeps(c.drop_last(), acc0, y);
        if c.last().rtype == chunk_type() && first_colon(c.last().rid) is Some {
            lemma_dedup_keeps(
                collect_fallback_chunks(c.drop_last(), acc0),
                trim_of(c.last().rid.take(first_colon(c.last().rid).unwrap())),
                y,
            );
        }
    }
}

/// The chunk-prefix collector gathers every chunk row's trimmed prefix.
proof fn lemma_fb_chunks_contains(c: Seq<CommittedView>, acc0: Seq<Seq<char>>, j: int)
    requires
        0 <= j < c.len(),
        c[j].rtype == chunk_type(),
        first_colon(c[j].rid) is Some,
        trim_of(c[j].rid.take(first_colon(c[j].rid).unwrap())).len() > 0,
    ensures
        collect_fallback_chunks(c, acc0).contains(
            trim_of(c[j].rid.take(first_colon(c[j].rid).unwrap())),
        ),
    decreases c.len(),
{
    let acc = collect_fallback_chunks(c.drop_last(), acc0);
    if j == c.len() - 1 {
        lemma_dedup_adds(acc, trim_of(c[j].rid.take(first_colon(c[j].rid).unwrap())));
    } else {
        assert(c.drop_last()[j] == c[j]);
        lemma_fb_chunks_contains(c.drop_last(), acc0, j);
        if c.last().rtype == chunk_type() && first_colon(c.last().rid) is Some {
            lemma_dedup_keeps(
                acc,
                trim_of(c.last().rid.take(first_colon(c.last().rid).unwrap())),
                trim_of(c[j].rid.take(first_colon(c[j].rid).unwrap())),
            );
        }
    }
}

/// An element of the chunk-prefix collector's output was given or stems
/// from a chunk row.
proof fn lemma_fb_chunks_inv(c: Seq<CommittedView>, acc0: Seq<Seq<char>>, x: Seq<char>)
    requires
        collect_fallback_chunks(c, acc0).contains(x),
    ensures
        acc0.contains(x) || (x.len() > 0 && exists|j: int|
            0 <= j < c.len() && (#[trigger] c[j]).rtype == chunk_type() && first_colon(c[j].rid)
                is Some && trim_of(c[j].rid.take(first_colon(c[j].rid).unwrap())) == x),
    decreases c.len(),
{
    if c.len() == 0 {
    } else {
        let acc = collect_fallback_chunks(c.drop_last(), acc0);
        if c.last().rtype == chunk_type() && first_colon(c.last().rid) is Some && !acc.contains(
            x,
        ) {
            let y = trim_of(c.last().rid.take(first_colon(c.last().rid).unwrap()));
            if y.len() == 0 || acc.contains(y) {
                assert(false);
            } else {
                let m = choose|m: int|
                    0 <= m < dedup_push(acc, y).len() && dedup_push(acc, y)[m] == x;
                if m < acc.len() {
                    assert(acc[m] == x);
                    assert(false);
                } else {
                    assert(x == y);
                    assert(c[c.len() - 1] == c.last());
                }
            }
        } else {
            lemma_fb_chunks_inv(c.drop_last(), acc0, x);
            if !acc0.contains(x) {
                let j = choose|j: int|
                    0 <= j < c.drop_last().len() && (#[trigger] c.drop_last()[j]).rtype
                        == chunk_type() && first_colon(c.drop_last()[j].rid) is Some && trim_of(
                        c.drop_last()[j].rid.take(first_colon(c.drop_last()[j].rid).unwrap()),
                    ) == x;
                assert(c[j] == c.drop_last()[j]);
            }
        }
    }
}

/// Ghost garbage collection is idempotent (law): a second run on the
/// state a run leaves behind collects only attachments of which nothing
/// remains, deletes no rows, and changes nothing. The collectors read
/// only the three stores, so the user row plays no part.
pub proof fn lemma_gc_idempotent(st: StateView, st2: StateView, opts: GhostGcOptions, now: i64)
    requires
        keys_wf(st),
        st2.committed == spec_gc_ids(st, gc_candidates(st, opts, now)).0.committed,
        st2.staged == spec_gc_ids(st, gc_candidates(st, opts, now)).0.staged,
        st2.refs == spec_gc_ids(st, gc_candidates(st, opts, now)).0.refs,
    ensures
        spec_gc_ids(st2, gc_candidates(st2, opts, now)).0 =~= st2,
        spec_gc_ids(st2, gc_candidates(st2, opts, now)).1 == 0,
        spec_gc_ids(st2, gc_candidates(st2, opts, now)).2 == 0,
{
    let ids1 = gc_candidates(st, opts, now);
    let o1 = spec_gc_ids(st, ids1);
    let ids2 = gc_candidates(st2, opts, now);
    lemma_gc_ids_subset(st, ids1);
    lemma_gc_ids_cleanses(st, ids1);
    assert forall|k: int| 0 <= k < ids2.len() implies cleansed(st2, #[trigger] ids2[k]) by {
        let x = ids2[k];
        assert(ids2.contains(x));
        // Which collector produced x, and why it already stood in the
        // first run's list.
        let base2 = collect_ref_orphans(st2.refs, st2.committed, opts.min_ref_age_ms, now);
        let base1 = collect_ref_orphans(st.refs, st.committed, opts.min_ref_age_ms, now);
        let fallback2 = opts.include_unreferenced_when_no_live_todo && !has_any_live_todo(
            st2.committed,
        );
        let from_ref = base2.contains(x);
        if from_ref {
            lemma_collect_refs_inv(st2.refs, st2.committed, opts.min_ref_age_ms, now, x);
            let j = choose|j: int|
                0 <= j < st2.refs.len() && is_orphan_ref(
                    st2.committed,
                    #[trigger] st2.refs[j],
                    opts.min_ref_age_ms,
                    now,
                ) && trim_of(st2.refs[j].attachment_id) == x;
            let r = st2.refs[j];
            assert(st.refs.contains(r));
            let w = choose|w: int| 0 <= w < st.refs.len() && st.refs[w] == r;
            // The todo is as dead in the old state as in the new one.
            if has_live_todo_for(st.committed, r.todo_id) {
                lemma_gc_ids_keeps_live_todo(st, ids1, r.todo_id);
                assert(false);
            }
            assert(is_orphan_ref(st.committed, st.refs[w], opts.min_ref_age_ms, now));
            lemma_collect_refs_contains(st.refs, st.committed, opts.min_ref_age_ms, now, w);
            assert(base1.contains(x));
            if opts.include_unreferenced_when_no_live_todo && !has_any_live_todo(st.committed) {
                lemma_fb_meta_keeps(st.committed, base1, x);
                lemma_fb_chunks_keeps(
                    st.committed,
                    collect_fallback_meta(st.committed, base1),
                    x,
                );
            }
            assert(ids1.contains(x));
        } else {
            assert(fallback2);
            // The first run took the fallback branch as well.
            if has_any_live_todo(st.committed) {
                lemma_gc_ids_keeps_any_live(st, ids1);
                assert(false);
            }
            let mid2 = collect_fallback_meta(st2.committed, base2);
            lemma_fb_chunks_inv(st2.committed, mid2, x);
            if mid2.contains(x) {
                lemma_fb_meta_inv(st2.committed, base2, x);
                assert(!base2.contains(x));
                let j = choose|j: int|
                    0 <= j < st2.committed.len() && (#[trigger] st2.committed[j]).rtype
                        == att_type() && trim_of(st2.committed[j].rid) == x;
                assert(st.committed.contains(st2.committed[j]));
                let w = choose|w: int|
                    0 <= w < st.committed.len() && st.committed[w] == st2.committed[j];
                lemma_fb_meta_contains(st.committed, base1, w);
                lemma_fb_chunks_keeps(
                    st.committed,
                    collect_fallback_meta(st.committed, base1),
                    x,
                );
                assert(ids1.contains(x));
            } else {
                let j = choose|j: int|
                    0 <= j < st2.committed.len() && (#[trigger] st2.committed[j]).rtype
                        == chunk_type() && first_colon(st2.committed[j].rid) is Some && trim_of(
                        st2.committed[j].rid.take(first_colon(st2.committed[j].rid).unwrap()),
                    ) == x;
                assert(st.committed.contains(st2.committed[j]));
                let w = choose|w: int|
                    0 <= w < st.committed.len() && st.committed[w] == st2.committed[j];
                lemma_fb_chunks_contains(
                    st.committed,
                    collect_fallback_meta(st.committed, base1),
                    w,
                );
                assert(ids1.contains(x));
            }
        }
        // Everything of x was removed by the first run.
        let k1 = choose|k1: int| 0 <= k1 < ids1.len() && ids1[k1] == x;
        assert(cleansed(o1.0, ids1[k1]));
        assert(cleansed(st2, x));
    }
    lemma_gc_ids_noop(st2, ids2);
}

} // verus!
