//! Attachment ownership references: client-reported `(attachment, todo)`
//! edges, upserted under a per-attachment unique key. They are the
//! authoritative source for ghost-attachment detection.

use vstd::prelude::*;

use crate::push::ApiError;
use crate::records::{AttachmentRef, RefView};
use crate::store::{keys_wf, StateView, SyncState};
use crate::strutil::{trim_of, trim_str};

verus! {

/// Index of the reference with this attachment id.
pub open spec fn find_ref_from(refs: Seq<RefView>, aid: Seq<char>, i: int) -> Option<int>
    decreases refs.len() - i,
{
    if i < 0 || i >= refs.len() {
        None
    } else if refs[i].attachment_id == aid {
        Some(i)
    } else {
        find_ref_from(refs, aid, i + 1)
    }
}

pub open spec fn find_ref(refs: Seq<RefView>, aid: Seq<char>) -> Option<int> {
    find_ref_from(refs, aid, 0)
}

pub proof fn lemma_find_ref_from(refs: Seq<RefView>, aid: Seq<char>, i: int)
    requires
        0 <= i <= refs.len(),
    ensures
        match find_ref_from(refs, aid, i) {
            Some(k) => i <= k < refs.len() && refs[k].attachment_id == aid,
            None => forall|j: int| i <= j < refs.len() ==> (#[trigger] refs[j]).attachment_id != aid,
        },
    decreases refs.len() - i,
{
    if i < refs.len() && refs[i].attachment_id != aid {
        lemma_find_ref_from(refs, aid, i + 1);
    }
}

/// Upsert one edge: overwrite in place when the attachment already has a
/// reference, append otherwise.
pub open spec fn spec_upsert_ref(
    refs: Seq<RefView>,
    aid: Seq<char>,
    tid: Seq<char>,
    now: i64,
) -> Seq<RefView> {
    let row = RefView { attachment_id: aid, todo_id: tid, updated_at: now };
    match find_ref(refs, aid) {
        Some(i) => refs.update(i, row),
        None => refs.push(row),
    }
}

/// Fold a list of client edges: both ids are trimmed, and pairs with an
/// empty id are ignored.
pub open spec fn spec_upsert_refs(
    refs: Seq<RefView>,
    pairs: Seq<(Seq<char>, Seq<char>)>,
    now: i64,
) -> Seq<RefView>
    decreases pairs.len(),
{
    if pairs.len() == 0 {
        refs
    } else {
        let prev = spec_upsert_refs(refs, pairs.drop_last(), now);
        let a = trim_of(pairs.last().0);
        let t = trim_of(pairs.last().1);
        if a.len() == 0 || t.len() == 0 {
            prev
        } else {
            spec_upsert_ref(prev, a, t, now)
        }
    }
}

/// Upsert preserves uniqueness of attachment ids.
pub proof fn lemma_upsert_ref_unique(refs: Seq<RefView>, aid: Seq<char>, tid: Seq<char>, now: i64)
    requires
        forall|i: int, j: int|
            0 <= i < refs.len() && 0 <= j < refs.len() && i != j ==> (#[trigger] refs[i]).attachment_id
                != (#[trigger] refs[j]).attachment_id,
    ensures
        forall|i: int, j: int|
            0 <= i < spec_upsert_ref(refs, aid, tid, now).len() && 0 <= j < spec_upsert_ref(
                refs,
                aid,
                tid,
                now,
            ).len() && i != j ==> (#[trigger] spec_upsert_ref(refs, aid, tid, now)[i]).attachment_id
                != (#[trigger] spec_upsert_ref(refs, aid, tid, now)[j]).attachment_id,
{
    lemma_find_ref_from(refs, aid, 0);
    let out = spec_upsert_ref(refs, aid, tid, now);
    match find_ref(refs, aid) {
        Some(k) => {
            assert forall|i: int, j: int|
                0 <= i < out.len() && 0 <= j < out.len() && i != j implies (#[trigger] out[i]).attachment_id
                != (#[trigger] out[j]).attachment_id by {
                if i != k && j != k {
                    assert(out[i] == refs[i] && out[j] == refs[j]);
                } else if i == k {
                    assert(out[j] == refs[j]);
                    if refs[j].attachment_id == aid {
                        assert(refs[j].attachment_id == refs[k].attachment_id);
                    }
                } else {
                    assert(out[i] == refs[i]);
                    if refs[i].attachment_id == aid {
                        assert(refs[i].attachment_id == refs[k].attachment_id);
                    }
                }
            }
        },
        None => {
            assert forall|i: int, j: int|
                0 <= i < out.len() && 0 <= j < out.len() && i != j implies (#[trigger] out[i]).attachment_id
                != (#[trigger] out[j]).attachment_id by {
                if i < out.len() - 1 && j < out.len() - 1 {
                    assert(out[i] == refs[i] && out[j] == refs[j]);
                } else if i == out.len() - 1 {
                    assert(out[j] == refs[j]);
                } else {
                    assert(out[i] == refs[i]);
                }
            }
        },
    }
}

impl SyncState {
    /// Upsert one client edge after trimming; pairs with an empty id do
    /// nothing.
    fn upsert_one_ref(&mut self, attachment_id: &String, todo_id: &String, now_ms: i64)
        ensures
            ({
                let a = trim_of(attachment_id@);
                let t = trim_of(todo_id@);
                if a.len() == 0 || t.len() == 0 {
                    final(self)@ == old(self)@
                } else {
                    final(self)@ == (StateView {
                        refs: spec_upsert_ref(old(self)@.refs, a, t, now_ms),
                        ..old(self)@
                    })
                }
            }),
    {
        let a = trim_str(attachment_id.as_str()).to_owned();
        let t = trim_str(todo_id.as_str()).to_owned();
        if a.as_str().unicode_len() == 0 || t.as_str().unicode_len() == 0 {
            return ;
        }
        let ghost rv = self@.refs;
        let n = self.refs.len();
        let mut i: usize = 0;
        while i < n
            invariant
                0 <= i <= n,
                self@ == old(self)@,
                rv == self@.refs,
                n == self.refs.len(),
                a@ == trim_of(attachment_id@),
                t@ == trim_of(todo_id@),
                a@.len() > 0,
                t@.len() > 0,
                find_ref(rv, a@) == find_ref_from(rv, a@, i as int),
            decreases n - i,
        {
            if self.refs[i].attachment_id == a {
                proof {
                    assert(rv[i as int].attachment_id == a@);
                    assert(find_ref(rv, a@) == Some(i as int));
                }
                let row = AttachmentRef {
                    attachment_id: a,
                    todo_id: t,
                    updated_at_ms_utc: now_ms,
                };
                self.refs.set(i, row);
                proof {
                    assert(final(self)@ =~= (StateView {
                        refs: rv.update(
                            i as int,
                            RefView { attachment_id: trim_of(attachment_id@), todo_id: trim_of(todo_id@), updated_at: now_ms },
                        ),
                        ..old(self)@
                    }));
                }
                return ;
            }
            i = i + 1;
        }
        let row = AttachmentRef { attachment_id: a, todo_id: t, updated_at_ms_utc: now_ms };
        self.refs.push(row);
        proof {
            assert(final(self)@ =~= (StateView {
                refs: rv.push(
                    RefView { attachment_id: trim_of(attachment_id@), todo_id: trim_of(todo_id@), updated_at: now_ms },
                ),
                ..old(self)@
            }));
        }
    }

    /// Upsert a batch of client edges; at most 5000 are accepted per
    /// call, and an oversized batch fails whole.
    pub fn upsert_attachment_refs(&mut self, pairs: &Vec<(String, String)>, now_ms: i64) -> (r:
        Result<(), ApiError>)
        requires
            keys_wf(old(self)@),
        ensures
            (r == Result::<(), ApiError>::Err(ApiError::TooManyRecords)) <==> pairs@.len() > 5000,
            pairs@.len() <= 5000 ==> r is Ok,
            r is Err ==> final(self)@ == old(self)@,
            r is Ok ==> final(self)@ == (StateView {
                refs: spec_upsert_refs(
                    old(self)@.refs,
                    pairs@.map_values(|p: (String, String)| (p.0@, p.1@)),
                    now_ms,
                ),
                ..old(self)@
            }),
            keys_wf(final(self)@),
    {
        if pairs.len() > 5000 {
            return Err(ApiError::TooManyRecords);
        }
        let ghost pv = pairs@.map_values(|p: (String, String)| (p.0@, p.1@));
        let n = pairs.len();
        let mut i: usize = 0;
        proof {
            assert(pv.take(0) =~= Seq::<(Seq<char>, Seq<char>)>::empty());
        }
        while i < n
            invariant
                0 <= i <= n,
                n == pairs@.len(),
                pv == pairs@.map_values(|p: (String, String)| (p.0@, p.1@)),
                self@ == (StateView {
                    refs: spec_upsert_refs(old(self)@.refs, pv.take(i as int), now_ms),
                    ..old(self)@
                }),
                keys_wf(self@),
            decreases n - i,
        {
            proof {
                assert(pv.take(i as int + 1).drop_last() =~= pv.take(i as int));
                assert(pv.take(i as int + 1).last() == pv[i as int]);
            }
            let ghost before = self@;
            let p = &pairs[i];
            proof {
                assert(pv[i as int] == (p.0@, p.1@));
            }
            self.upsert_one_ref(&p.0, &p.1, now_ms);
            proof {
                let a = trim_of(pv[i as int].0);
                let t = trim_of(pv[i as int].1);
                if !(a.len() == 0 || t.len() == 0) {
                    lemma_upsert_ref_unique(before.refs, a, t, now_ms);
                    lemma_find_ref_from(before.refs, a, 0);
                    match find_ref(before.refs, a) {
                        Some(k) => {
                            before.refs.update(
                                k,
                                RefView { attachment_id: a, todo_id: t, updated_at: now_ms },
                            );
                        },
                        None => {},
                    }
                }
                assert(self@ == (StateView {
                    refs: spec_upsert_refs(old(self)@.refs, pv.take(i as int + 1), now_ms),
                    ..old(self)@
                }));
            }
            i = i + 1;
        }
        proof {
            assert(pv.take(n as int) =~= pv);
        }
        Ok(())
    }
}

} // verus!
