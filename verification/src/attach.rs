//! The attachment lifecycle: chunk-index parsing, pre-commit deletion of
//! staged rows, promotion of staged rows by a commit marker, and tombstone
//! compaction of committed chunks.

use vstd::prelude::*;

use crate::records::{
    att_type, chunk_prefix, chunk_type, staged_belongs_to, staged_size, sum_staged, CommittedRecord,
    CommittedView, StagedRecord, StagedView,
};
use crate::store::{find_staged, keys_wf, lemma_find_staged_from, StateView, SyncState};
use crate::strutil::starts_with;

verus! {

/// Index of the last `':'` in a character sequence.
pub open spec fn last_colon(s: Seq<char>) -> Option<int>
    decreases s.len(),
{
    if s.len() == 0 {
        None
    } else if s.last() == ':' {
        Some(s.len() - 1)
    } else {
        last_colon(s.drop_last())
    }
}

/// Are all characters decimal digits?
pub open spec fn all_digits(s: Seq<char>) -> bool {
    forall|i: int| 0 <= i < s.len() ==> '0' <= #[trigger] s[i] <= '9'
}

/// Numeric value of a digit sequence, most significant digit first.
pub open spec fn dec_val(s: Seq<char>) -> int
    decreases s.len(),
{
    if s.len() == 0 {
        0
    } else {
        dec_val(s.drop_last()) * 10 + (s.last() as int - '0' as int)
    }
}

/// The chunk index encoded in a record id: the digits after the last
/// colon, when they form a non-negative integer that fits in `i64`.
pub open spec fn chunk_index_of(rid: Seq<char>) -> Option<i64> {
    match last_colon(rid) {
        None => None,
        Some(i) => {
            let t = rid.skip(i + 1);
            if t.len() > 0 && all_digits(t) && dec_val(t) <= i64::MAX {
                Some(dec_val(t) as i64)
            } else {
                None
            }
        },
    }
}

/// Sort key of a chunk record id: its parsed index, with unparseable
/// indices sorting last.
pub open spec fn chunk_sort_key(rid: Seq<char>) -> i64 {
    match chunk_index_of(rid) {
        Some(v) => v,
        None => i64::MAX,
    }
}

proof fn lemma_dec_val_nonneg(s: Seq<char>)
    requires
        all_digits(s),
    ensures
        dec_val(s) >= 0,
    decreases s.len(),
{
    if s.len() > 0 {
        assert(all_digits(s.drop_last())) by {
            assert(forall|i: int| 0 <= i < s.len() - 1 ==> s.drop_last()[i] == s[i]);
        }
        lemma_dec_val_nonneg(s.drop_last());
    }
}

pub proof fn lemma_last_colon_none(s: Seq<char>)
    ensures
        last_colon(s) is None <==> forall|i: int| 0 <= i < s.len() ==> s[i] != ':',
    decreases s.len(),
{
    if s.len() > 0 {
        lemma_last_colon_none(s.drop_last());
        assert(forall|i: int| 0 <= i < s.len() - 1 ==> s.drop_last()[i] == s[i]);
    }
}

pub proof fn lemma_last_colon_some(s: Seq<char>, k: int)
    requires
        0 <= k < s.len(),
        s[k] == ':',
        forall|i: int| k < i < s.len() ==> s[i] != ':',
    ensures
        last_colon(s) == Some(k),
    decreases s.len(),
{
    if k == s.len() - 1 {
    } else {
        assert(s.last() != ':');
        assert(forall|i: int| 0 <= i < s.len() - 1 ==> s.drop_last()[i] == s[i]);
        lemma_last_colon_some(s.drop_last(), k);
    }
}

/// Parse the chunk index from a record id: the decimal number after the
/// last colon, if any.
pub fn parse_chunk_index(record_id: &str) -> (r: Option<i64>)
    ensures
        r == chunk_index_of(record_id@),
{
    let len = record_id.unicode_len();
    // Find the last colon.
    let mut col: usize = len;
    let mut found = false;
    while col > 0 && !found
        invariant
            0 <= col <= len,
            len == record_id@.len(),
            !found ==> forall|i: int| col <= i < len ==> record_id@[i] != ':',
            found ==> 0 < col <= len && record_id@[col - 1] == ':' && forall|i: int|
                col <= i < len ==> record_id@[i] != ':',
        decreases col + (if found { 0int } else { 1int }),
    {
        if record_id.get_char(col - 1) == ':' {
            found = true;
        } else {
            col = col - 1;
        }
    }
    if !found {
        proof {
            lemma_last_colon_none(record_id@);
        }
        return None;
    }
    proof {
        lemma_last_colon_some(record_id@, col - 1);
    }
    let ghost t = record_id@.skip(col as int);
    proof {
        assert(t.len() == len - col);
    }
    if col == len {
        // Empty digit part.
        proof {
            assert(t.len() == 0);
            assert(chunk_index_of(record_id@) is None);
        }
        return None;
    }
    let mut val: i64 = 0;
    let mut i: usize = col;
    proof {
        assert(t.take(0) =~= Seq::<char>::empty());
    }
    while i < len
        invariant
            col <= i <= len,
            col < len,
            len == record_id@.len(),
            last_colon(record_id@) == Some(col as int - 1),
            t == record_id@.skip(col as int),
            t.len() == len - col,
            forall|j: int| 0 <= j < t.len() ==> t[j] == record_id@[col + j],
            all_digits(t.take(i - col)),
            val == dec_val(t.take(i - col)),
            val >= 0,
        decreases len - i,
    {
        let c = record_id.get_char(i);
        proof {
            assert(t[i - col] == record_id@[i as int]);
        }
        if c < '0' || c > '9' {
            proof {
                assert(!('0' <= t[i - col] <= '9'));
                assert(!all_digits(t));
                assert(chunk_index_of(record_id@) is None);
            }
            return None;
        }
        let d: i64 = ((c as u32) - 48) as i64;
        proof {
            assert(t.take(i - col + 1).drop_last() =~= t.take(i - col));
            assert(t.take(i - col + 1).last() == t[i - col]);
            assert(d == t[i - col] as int - '0' as int);
            assert(0 <= d <= 9);
        }
        let next_val = match val.checked_mul(10) {
            Some(v) => v.checked_add(d),
            None => None,
        };
        match next_val {
            Some(v) => {
                val = v;
                i = i + 1;
            },
            None => {
                // Overflow: the full value can only be larger.
                proof {
                    let pre = t.take(i - col + 1);
                    assert(all_digits(pre));
                    assert(dec_val(pre) == val * 10 + d);
                    assert(dec_val(pre) > i64::MAX);
                    if all_digits(t) {
                        lemma_dec_val_prefix_bound(t, i - col + 1);
                        assert(dec_val(t) > i64::MAX);
                    }
                    assert(chunk_index_of(record_id@) is None);
                }
                return None;
            },
        }
    }
    proof {
        assert(t.take(len - col) =~= t);
        assert(chunk_index_of(record_id@) == Some(val));
    }
    Some(val)
}

/// A digit string's value is at least the value of any of its prefixes.
/// A digit string's value is non-negative.
pub proof fn lemma_dec_val_nonneg_pub(s: Seq<char>)
    requires
        all_digits(s),
    ensures
        dec_val(s) >= 0,
{
    lemma_dec_val_nonneg(s);
}

pub proof fn lemma_dec_val_prefix_bound(s: Seq<char>, i: int)
    requires
        0 <= i <= s.len(),
        all_digits(s),
    ensures
        dec_val(s) >= dec_val(s.take(i)),
    decreases s.len() - i,
{
    if i < s.len() {
        lemma_dec_val_prefix_bound(s, i + 1);
        assert(s.take(i + 1).drop_last() =~= s.take(i));
        assert(all_digits(s.take(i))) by {
            assert(forall|j: int| 0 <= j < i ==> s.take(i)[j] == s[j]);
        }
        lemma_dec_val_nonneg(s.take(i));
        assert(dec_val(s.take(i + 1)) == dec_val(s.take(i)) * 10 + (s[i] as int - '0' as int));
        assert(dec_val(s.take(i)) * 10 >= dec_val(s.take(i))) by (nonlinear_arith)
            requires
                dec_val(s.take(i)) >= 0,
        ;
    } else {
        assert(s.take(i) =~= s);
    }
}

/// An order-preserving embedding of a filtered sequence into its source:
/// every element of `s.filter(pred)` occurs in `s`, and pairs keep their
/// relative order.
pub proof fn lemma_filter_embedding<A>(s: Seq<A>, pred: spec_fn(A) -> bool)
    ensures
        forall|k: int|
            0 <= k < s.filter(pred).len() ==> exists|j: int|
                0 <= j < s.len() && #[trigger] s.filter(pred)[k] == s[j],
        forall|k1: int, k2: int|
            0 <= k1 < k2 < s.filter(pred).len() ==> exists|j1: int, j2: int|
                0 <= j1 < j2 < s.len() && #[trigger] s.filter(pred)[k1] == s[j1] && #[trigger] s.filter(
                    pred,
                )[k2] == s[j2],
    decreases s.len(),
{
    reveal(Seq::filter);
    let f = s.filter(pred);
    if s.len() > 0 {
        let dl = s.drop_last();
        lemma_filter_embedding(dl, pred);
        let fd = dl.filter(pred);
        assert(forall|j: int| 0 <= j < dl.len() ==> dl[j] == s[j]);
        assert forall|k: int| 0 <= k < f.len() implies exists|j: int|
            0 <= j < s.len() && #[trigger] f[k] == s[j] by {
            if pred(s.last()) && k == f.len() - 1 {
                assert(f[k] == s[s.len() - 1]);
            } else {
                assert(f[k] == fd[k]);
                let j = choose|j: int| 0 <= j < dl.len() && fd[k] == dl[j];
                assert(f[k] == s[j]);
            }
        }
        assert forall|k1: int, k2: int| 0 <= k1 < k2 < f.len() implies exists|j1: int, j2: int|
            0 <= j1 < j2 < s.len() && #[trigger] f[k1] == s[j1] && #[trigger] f[k2] == s[j2] by {
            if pred(s.last()) && k2 == f.len() - 1 {
                assert(f[k1] == fd[k1]);
                let j1 = choose|j: int| 0 <= j < dl.len() && fd[k1] == dl[j];
                assert(f[k1] == s[j1] && f[k2] == s[s.len() - 1]);
                assert(0 <= j1 < s.len() - 1 < s.len());
            } else {
                assert(f[k1] == fd[k1] && f[k2] == fd[k2]);
                let (j1, j2) = choose|j1: int, j2: int|
                    0 <= j1 < j2 < dl.len() && fd[k1] == dl[j1] && fd[k2] == dl[j2];
                assert(0 <= j1 < j2 < s.len() && f[k1] == s[j1] && f[k2] == s[j2]);
            }
        }
    }
}

/// Rows kept by the pre-commit deletion of an attachment: everything that
/// does not belong to it.
pub open spec fn staged_keep_pred(aid: Seq<char>) -> spec_fn(StagedView) -> bool {
    |r: StagedView| !staged_belongs_to(r, aid)
}

impl SyncState {
    /// Delete every staged row belonging to attachment `aid` (its meta row
    /// and every chunk row), returning how many rows and bytes were
    /// removed.
    pub fn delete_staged_attachment(&mut self, aid: &String) -> (r: (i64, i64))
        requires
            sum_staged(old(self)@.staged) <= i64::MAX,
            old(self)@.staged.len() < i64::MAX,
        ensures
            final(self)@ == (StateView {
                staged: old(self)@.staged.filter(staged_keep_pred(aid@)),
                ..old(self)@
            }),
            r.0 == old(self)@.staged.len() - final(self)@.staged.len(),
            r.1 == sum_staged(old(self)@.staged) - sum_staged(final(self)@.staged),
            0 <= r.0,
            0 <= r.1,
    {
        proof {
            reveal(Seq::filter);
        }
        let ghost keep = staged_keep_pred(aid@);
        let pattern = aid.clone().concat(":");
        proof {
            reveal_strlit(":");
            assert(pattern@ =~= chunk_prefix(aid@));
        }
        let mut kept: Vec<StagedRecord> = Vec::new();
        let mut removed_count: i64 = 0;
        let mut removed_bytes: i64 = 0;
        let n = self.staged.len();
        let mut i: usize = 0;
        while i < n
            invariant
                0 <= i <= n,
                self@ == old(self)@,
                n == self.staged.len(),
                n < i64::MAX,
                pattern@ == chunk_prefix(aid@),
                sum_staged(self@.staged) <= i64::MAX,
                kept@.map_values(|x: StagedRecord| x@) =~= self@.staged.take(i as int).filter(
                    keep,
                ),
                keep == staged_keep_pred(aid@),
                removed_count == i - kept@.len(),
                removed_bytes == sum_staged(self@.staged.take(i as int)) - sum_staged(
                    self@.staged.take(i as int).filter(keep),
                ),
                0 <= removed_bytes,
                removed_count <= i,
            decreases n - i,
        {
            proof {
                reveal(Seq::filter);
                assert(self@.staged.take(i as int + 1).drop_last() =~= self@.staged.take(i as int));
                assert(self@.staged.take(i as int + 1).last() == self@.staged[i as int]);
                crate::store::lemma_sum_prefix_bound_staged(self@.staged, i as int + 1);
                lemma_sum_filter_le(self@.staged.take(i as int), keep);
                lemma_sum_filter_le(self@.staged.take(i as int + 1), keep);
            }
            let row = &self.staged[i];
            let is_meta = crate::strutil::str_eq(row.record_type.as_str(), "todo_attachment")
                && row.record_id == *aid;
            let is_chunk = crate::strutil::str_eq(
                row.record_type.as_str(),
                "todo_attachment_chunk",
            ) && starts_with(row.record_id.as_str(), pattern.as_str());
            let ghost rv = self@.staged[i as int];
            if is_meta || is_chunk {
                proof {
                    assert(staged_belongs_to(rv, aid@));
                    assert(!keep(rv));
                    assert(self@.staged.take(i as int + 1).filter(keep) == self@.staged.take(
                        i as int,
                    ).filter(keep));
                }
                let nlen = row.nonce.as_str().unicode_len();
                let clen = row.ciphertext.as_str().unicode_len();
                proof {
                    assert(staged_size(rv) == nlen + clen);
                    assert(sum_staged(self@.staged.take(i as int + 1)) == sum_staged(
                        self@.staged.take(i as int),
                    ) + staged_size(rv));
                }
                removed_count = removed_count + 1;
                removed_bytes = removed_bytes + (nlen as i64) + (clen as i64);
            } else {
                proof {
                    assert(!staged_belongs_to(rv, aid@));
                    assert(keep(rv));
                    assert(self@.staged.take(i as int + 1).filter(keep) == self@.staged.take(
                        i as int,
                    ).filter(keep).push(rv));
                    crate::records::lemma_sum_staged_push(
                        self@.staged.take(i as int).filter(keep),
                        rv,
                    );
                }
                let cl = row.clone();
                kept.push(cl);
                proof {
                    assert(kept@.map_values(|x: StagedRecord| x@) =~= self@.staged.take(
                        i as int + 1,
                    ).filter(keep));
                }
            }
            i = i + 1;
        }
        proof {
            assert(self@.staged.take(n as int) =~= self@.staged);
        }
        self.staged = kept;
        proof {
            assert(final(self)@ =~= (StateView {
                staged: old(self)@.staged.filter(staged_keep_pred(aid@)),
                ..old(self)@
            }));
        }
        (removed_count, removed_bytes)
    }
}

/// Filtering never increases the sum of staged sizes.
pub proof fn lemma_sum_filter_le(s: Seq<StagedView>, pred: spec_fn(StagedView) -> bool)
    ensures
        sum_staged(s.filter(pred)) <= sum_staged(s),
        sum_staged(s.filter(pred)) >= 0,
    decreases s.len(),
{
    reveal(Seq::filter);
    if s.len() == 0 {
    } else {
        lemma_sum_filter_le(s.drop_last(), pred);
        if pred(s.last()) {
            assert(s.filter(pred) == s.drop_last().filter(pred).push(s.last()));
            crate::records::lemma_sum_staged_push(s.drop_last().filter(pred), s.last());
        }
    }
}

/// The committed-store part of the key invariant: positive bounded
/// sequence numbers, strictly increasing in log order, unique keys.
pub open spec fn committed_ok(c: Seq<CommittedView>, next: i64) -> bool {
    &&& 0 <= next
    &&& forall|i: int| 0 <= i < c.len() ==> 0 < #[trigger] c[i].seq <= next
    &&& forall|i: int, j: int| 0 <= i < j < c.len() ==> #[trigger] c[i].seq < #[trigger] c[j].seq
    &&& forall|i: int, j: int|
        0 <= i < c.len() && 0 <= j < c.len() && i != j ==> !crate::store::c_key_match(
            #[trigger] c[i],
            #[trigger] c[j].rtype,
            c[j].rid,
        )
}

/// Upserting a row with a fresh sequence number keeps the committed store
/// well-formed, and introduces no key but the row's own.
pub proof fn lemma_upsert_fresh_preserves(c: Seq<CommittedView>, next: i64, row: CommittedView)
    requires
        committed_ok(c, next),
        next < row.seq,
    ensures
        committed_ok(crate::store::spec_upsert_committed(c, row), row.seq),
        forall|i: int|
            0 <= i < crate::store::spec_upsert_committed(c, row).len() ==> (crate::store::c_key_match(
                #[trigger] crate::store::spec_upsert_committed(c, row)[i],
                row.rtype,
                row.rid,
            ) || exists|j: int|
                0 <= j < c.len() && crate::store::c_key_match(
                    crate::store::spec_upsert_committed(c, row)[i],
                    (#[trigger] c[j]).rtype,
                    c[j].rid,
                )),
{
    crate::store::lemma_find_committed_from(c, row.rtype, row.rid, 0);
    let out = crate::store::spec_upsert_committed(c, row);
    match crate::store::find_committed(c, row.rtype, row.rid) {
        Some(i) => {
            c.remove_ensures(i);
            assert forall|k: int| 0 <= k < out.len() implies (crate::store::c_key_match(
                #[trigger] out[k],
                row.rtype,
                row.rid,
            ) || exists|j: int|
                0 <= j < c.len() && crate::store::c_key_match(
                    out[k],
                    (#[trigger] c[j]).rtype,
                    c[j].rid,
                )) by {
                if k < out.len() - 1 {
                    let j = if k < i {
                        k
                    } else {
                        k + 1
                    };
                    assert(out[k] == c[j]);
                    assert(crate::store::c_key_match(out[k], c[j].rtype, c[j].rid));
                }
            }
        },
        None => {
            assert forall|k: int| 0 <= k < out.len() implies (crate::store::c_key_match(
                #[trigger] out[k],
                row.rtype,
                row.rid,
            ) || exists|j: int|
                0 <= j < c.len() && crate::store::c_key_match(
                    out[k],
                    (#[trigger] c[j]).rtype,
                    c[j].rid,
                )) by {
                if k < out.len() - 1 {
                    assert(out[k] == c[k]);
                    assert(crate::store::c_key_match(out[k], c[k].rtype, c[k].rid));
                }
            }
        },
    }
}

/// Insert a staged chunk row into a key-sorted run, after every row whose
/// key is not larger.
pub open spec fn insert_by_key(s: Seq<StagedView>, x: StagedView) -> Seq<StagedView>
    decreases s.len(),
{
    if s.len() == 0 {
        seq![x]
    } else if chunk_sort_key(s.last().rid) <= chunk_sort_key(x.rid) {
        s.push(x)
    } else {
        insert_by_key(s.drop_last(), x).push(s.last())
    }
}

/// Sort staged chunk rows by parsed chunk index, keeping the original
/// order of rows with equal keys.
pub open spec fn sort_chunks(s: Seq<StagedView>) -> Seq<StagedView>
    decreases s.len(),
{
    if s.len() == 0 {
        Seq::empty()
    } else {
        insert_by_key(sort_chunks(s.drop_last()), s.last())
    }
}

/// Rows sorted ascending by chunk key.
pub open spec fn sorted_by_key(s: Seq<StagedView>) -> bool {
    forall|i: int, j: int|
        0 <= i < j < s.len() ==> chunk_sort_key((#[trigger] s[i]).rid) <= chunk_sort_key(
            (#[trigger] s[j]).rid,
        )
}

/// Where `insert_by_key` puts its row: at the first position from the
/// right whose predecessors all have keys not above the row's.
proof fn lemma_insert_by_key_at(s: Seq<StagedView>, x: StagedView, p: int)
    requires
        0 <= p <= s.len(),
        forall|k: int| 0 <= k < p ==> chunk_sort_key((#[trigger] s[k]).rid) <= chunk_sort_key(x.rid),
        forall|k: int| p <= k < s.len() ==> chunk_sort_key((#[trigger] s[k]).rid) > chunk_sort_key(x.rid),
    ensures
        insert_by_key(s, x) =~= s.insert(p, x),
    decreases s.len(),
{
    s.insert_ensures(p, x);
    if s.len() == 0 {
    } else if chunk_sort_key(s.last().rid) <= chunk_sort_key(x.rid) {
        assert(p == s.len());
    } else {
        assert(p < s.len());
        assert(forall|k: int| 0 <= k < s.len() - 1 ==> s.drop_last()[k] == s[k]);
        lemma_insert_by_key_at(s.drop_last(), x, p);
        s.drop_last().insert_ensures(p, x);
    }
}

/// `insert_by_key` preserves sortedness and contributes exactly the
/// inserted row.
#[verifier::spinoff_prover]
#[verifier::rlimit(80)]
proof fn lemma_insert_by_key_sorted(s: Seq<StagedView>, x: StagedView, p: int)
    requires
        0 <= p <= s.len(),
        sorted_by_key(s),
        forall|k: int| 0 <= k < p ==> chunk_sort_key((#[trigger] s[k]).rid) <= chunk_sort_key(x.rid),
        forall|k: int| p <= k < s.len() ==> chunk_sort_key((#[trigger] s[k]).rid) > chunk_sort_key(x.rid),
    ensures
        sorted_by_key(s.insert(p, x)),
        forall|k: int|
            0 <= k < s.insert(p, x).len() ==> (#[trigger] s.insert(p, x)[k] == x || exists|j: int|
                0 <= j < s.len() && s.insert(p, x)[k] == s[j]),
{
    s.insert_ensures(p, x);
    let out = s.insert(p, x);
    assert forall|a: int, b: int|
        0 <= a < b < out.len() implies chunk_sort_key((#[trigger] out[a]).rid) <= chunk_sort_key(
        (#[trigger] out[b]).rid,
    ) by {
        if a < p {
            assert(out[a] == s[a]);
        } else if a == p {
            assert(out[a] == x);
        } else {
            assert(out[a] == s[a - 1]);
        }
        if b < p {
            assert(out[b] == s[b]);
        } else if b == p {
            assert(out[b] == x);
        } else {
            assert(out[b] == s[b - 1]);
        }
    }
    assert forall|k: int| 0 <= k < out.len() implies (#[trigger] out[k] == x || exists|j: int|
        0 <= j < s.len() && out[k] == s[j]) by {
        if k < p {
            assert(out[k] == s[k]);
        } else if k > p {
            assert(out[k] == s[k - 1]);
        }
    }
}

impl SyncState {
    /// Collect the staged chunk rows of attachment `aid`, in staging
    /// order.
    pub fn gather_staged_chunks(&self, aid: &String) -> (r: Vec<StagedRecord>)
        ensures
            r@.map_values(|x: StagedRecord| x@) =~= self@.staged.filter(chunk_of_pred(aid@)),
    {
        proof {
            reveal(Seq::filter);
        }
        let ghost pred = chunk_of_pred(aid@);
        let pattern = aid.clone().concat(":");
        proof {
            reveal_strlit(":");
            assert(pattern@ =~= chunk_prefix(aid@));
        }
        let mut out: Vec<StagedRecord> = Vec::new();
        let n = self.staged.len();
        let mut i: usize = 0;
        while i < n
            invariant
                0 <= i <= n,
                n == self.staged.len(),
                pattern@ == chunk_prefix(aid@),
                pred == chunk_of_pred(aid@),
                out@.map_values(|x: StagedRecord| x@) =~= self@.staged.take(i as int).filter(pred),
            decreases n - i,
        {
            proof {
                reveal(Seq::filter);
                assert(self@.staged.take(i as int + 1).drop_last() =~= self@.staged.take(i as int));
                assert(self@.staged.take(i as int + 1).last() == self@.staged[i as int]);
            }
            let row = &self.staged[i];
            let is_chunk = crate::strutil::str_eq(
                row.record_type.as_str(),
                "todo_attachment_chunk",
            ) && starts_with(row.record_id.as_str(), pattern.as_str());
            if is_chunk {
                let cl = row.clone();
                out.push(cl);
                proof {
                    assert(out@.map_values(|x: StagedRecord| x@) =~= self@.staged.take(
                        i as int + 1,
                    ).filter(pred));
                }
            }
            i = i + 1;
        }
        proof {
            assert(self@.staged.take(n as int) =~= self@.staged);
        }
        out
    }
}

/// Is this staged row a chunk of attachment `aid`?
pub open spec fn chunk_of_pred(aid: Seq<char>) -> spec_fn(StagedView) -> bool {
    |r: StagedView| r.rtype == chunk_type() && crate::strutil::has_prefix(r.rid, chunk_prefix(aid))
}

/// Sort a vector of staged chunk rows by parsed chunk index, stably.
#[verifier::spinoff_prover]
#[verifier::rlimit(80)]
pub fn sort_chunk_rows(rows: Vec<StagedRecord>) -> (r: Vec<StagedRecord>)
    ensures
        r@.map_values(|x: StagedRecord| x@) =~= sort_chunks(
            rows@.map_values(|x: StagedRecord| x@),
        ),
        sorted_by_key(r@.map_values(|x: StagedRecord| x@)),
{
    let ghost rv = rows@.map_values(|x: StagedRecord| x@);
    let mut out: Vec<StagedRecord> = Vec::new();
    let mut keys: Vec<i64> = Vec::new();
    let n = rows.len();
    let mut i: usize = 0;
    proof {
        assert(rv.take(0) =~= Seq::<StagedView>::empty());
    }
    while i < n
        invariant
            0 <= i <= n,
            n == rows@.len(),
            rv == rows@.map_values(|x: StagedRecord| x@),
            out@.map_values(|x: StagedRecord| x@) =~= sort_chunks(rv.take(i as int)),
            sorted_by_key(out@.map_values(|x: StagedRecord| x@)),
            keys@.len() == out@.len(),
            forall|k: int|
                0 <= k < out@.len() ==> #[trigger] keys@[k] == chunk_sort_key(
                    out@.map_values(|x: StagedRecord| x@)[k].rid,
                ),
        decreases n - i,
    {
        let ghost before = out@.map_values(|x: StagedRecord| x@);
        let row = &rows[i];
        let key: i64 = match parse_chunk_index(row.record_id.as_str()) {
            Some(v) => v,
            None => i64::MAX,
        };
        proof {
            assert(key == chunk_sort_key(rv[i as int].rid));
        }
        let mut p: usize = out.len();
        while p > 0 && keys[p - 1] > key
            invariant
                0 <= p <= out@.len(),
                keys@.len() == out@.len(),
                forall|k: int|
                    0 <= k < out@.len() ==> #[trigger] keys@[k] == chunk_sort_key(
                        out@.map_values(|x: StagedRecord| x@)[k].rid,
                    ),
                sorted_by_key(out@.map_values(|x: StagedRecord| x@)),
                forall|k: int| p <= k < out@.len() ==> #[trigger] keys@[k] > key,
            decreases p,
        {
            p = p - 1;
        }
        let ghost sorted_before = out@.map_values(|x: StagedRecord| x@);
        proof {
            if p > 0 {
                assert(keys@[p as int - 1] <= key);
                assert(forall|k: int|
                    0 <= k < p ==> chunk_sort_key((#[trigger] sorted_before[k]).rid)
                        <= chunk_sort_key(sorted_before[p as int - 1].rid));
            }
            assert forall|k: int|
                0 <= k < p implies chunk_sort_key((#[trigger] sorted_before[k]).rid) <= key by {
                if p > 0 {
                    assert(keys@[p - 1] == chunk_sort_key(
                        out@.map_values(|x: StagedRecord| x@)[p - 1].rid,
                    ));
                    assert(chunk_sort_key(sorted_before[p - 1].rid) <= key);
                }
            }
            assert forall|k: int|
                p <= k < sorted_before.len() implies chunk_sort_key(
                (#[trigger] sorted_before[k]).rid,
            ) > key by {
                assert(keys@[k] > key);
                assert(keys@[k] == chunk_sort_key(
                    out@.map_values(|x: StagedRecord| x@)[k].rid,
                ));
            }
            lemma_insert_by_key_at(sorted_before, rv[i as int], p as int);
            lemma_insert_by_key_sorted(sorted_before, rv[i as int], p as int);
            sorted_before.insert_ensures(p as int, rv[i as int]);
            assert(rv.take(i as int + 1).drop_last() =~= rv.take(i as int));
        }
        let cl = row.clone();
        out.insert(p, cl);
        keys.insert(p, key);
        proof {
            assert(out@.map_values(|x: StagedRecord| x@) =~= sorted_before.insert(
                p as int,
                rv[i as int],
            ));
        }
        i = i + 1;
    }
    proof {
        assert(rv.take(n as int) =~= rv);
    }
    out
}

/// Does any row of `c` carry this key?
pub open spec fn has_key_c(c: Seq<CommittedView>, t: Seq<char>, id: Seq<char>) -> bool {
    exists|i: int| 0 <= i < c.len() && crate::store::c_key_match(#[trigger] c[i], t, id)
}

/// Does any staged row of `rows` carry this key?
pub open spec fn has_key_rows(rows: Seq<StagedView>, t: Seq<char>, id: Seq<char>) -> bool {
    exists|i: int| 0 <= i < rows.len() && crate::store::s_key_match(#[trigger] rows[i], t, id)
}

/// The committed row a staged row becomes on promotion.
pub open spec fn promoted_view(r: StagedView, seq: i64, now: i64) -> CommittedView {
    CommittedView {
        rtype: r.rtype,
        rid: r.rid,
        hlc: r.hlc,
        deleted_at: r.deleted_at,
        schema: r.schema,
        dek: r.dek,
        algo: r.algo,
        nonce: r.nonce,
        ciphertext: r.ciphertext,
        seq,
        updated_at: now,
    }
}

/// Promote one staged row: skip it when a committed counterpart exists
/// whose stamp is not strictly older, otherwise allocate a fresh sequence
/// number and upsert.
pub open spec fn spec_promote_one(
    c: Seq<CommittedView>,
    next: i64,
    r: StagedView,
    now: i64,
) -> (Seq<CommittedView>, i64) {
    let skip = match crate::store::find_committed(c, r.rtype, r.rid) {
        Some(i) => !crate::hlc::hlc_newer(r.hlc, c[i].hlc),
        None => false,
    };
    if skip {
        (c, next)
    } else {
        (
            crate::store::spec_upsert_committed(c, promoted_view(r, (next + 1) as i64, now)),
            (next + 1) as i64,
        )
    }
}

/// Promote a run of staged rows in order.
pub open spec fn spec_promote_rows(
    c: Seq<CommittedView>,
    next: i64,
    rows: Seq<StagedView>,
    now: i64,
) -> (Seq<CommittedView>, i64)
    decreases rows.len(),
{
    if rows.len() == 0 {
        (c, next)
    } else {
        let prev = spec_promote_rows(c, next, rows.drop_last(), now);
        spec_promote_one(prev.0, prev.1, rows.last(), now)
    }
}

/// Promotion keeps the committed store well-formed, advances the counter
/// by at most one per row, and introduces no keys beyond those of the
/// promoted rows.
pub proof fn lemma_promote_rows_props(
    c: Seq<CommittedView>,
    next: i64,
    rows: Seq<StagedView>,
    now: i64,
)
    requires
        committed_ok(c, next),
        next + rows.len() <= i64::MAX,
    ensures
        committed_ok(
            spec_promote_rows(c, next, rows, now).0,
            spec_promote_rows(c, next, rows, now).1,
        ),
        next <= spec_promote_rows(c, next, rows, now).1 <= next + rows.len(),
        forall|k: int|
            0 <= k < spec_promote_rows(c, next, rows, now).0.len() ==> has_key_c(
                c,
                (#[trigger] spec_promote_rows(c, next, rows, now).0[k]).rtype,
                spec_promote_rows(c, next, rows, now).0[k].rid,
            ) || has_key_rows(
                rows,
                spec_promote_rows(c, next, rows, now).0[k].rtype,
                spec_promote_rows(c, next, rows, now).0[k].rid,
            ),
    decreases rows.len(),
{
    if rows.len() > 0 {
        let dl = rows.drop_last();
        lemma_promote_rows_props(c, next, dl, now);
        let prev = spec_promote_rows(c, next, dl, now);
        let r = rows.last();
        let out = spec_promote_one(prev.0, prev.1, r, now);
        let skip = match crate::store::find_committed(prev.0, r.rtype, r.rid) {
            Some(i) => !crate::hlc::hlc_newer(r.hlc, prev.0[i].hlc),
            None => false,
        };
        if !skip {
            let nrow = promoted_view(r, (prev.1 + 1) as i64, now);
            lemma_upsert_fresh_preserves(prev.0, prev.1, nrow);
            assert forall|k: int| 0 <= k < out.0.len() implies has_key_c(
                c,
                (#[trigger] out.0[k]).rtype,
                out.0[k].rid,
            ) || has_key_rows(rows, out.0[k].rtype, out.0[k].rid) by {
                if crate::store::c_key_match(out.0[k], nrow.rtype, nrow.rid) {
                    assert(crate::store::s_key_match(rows[rows.len() - 1], out.0[k].rtype, out.0[k].rid));
                } else {
                    let j = choose|j: int|
                        0 <= j < prev.0.len() && crate::store::c_key_match(
                            out.0[k],
                            (#[trigger] prev.0[j]).rtype,
                            prev.0[j].rid,
                        );
                    assert(has_key_c(c, prev.0[j].rtype, prev.0[j].rid) || has_key_rows(
                        dl,
                        prev.0[j].rtype,
                        prev.0[j].rid,
                    ));
                    if has_key_rows(dl, prev.0[j].rtype, prev.0[j].rid) {
                        let m = choose|m: int|
                            0 <= m < dl.len() && crate::store::s_key_match(
                                #[trigger] dl[m],
                                prev.0[j].rtype,
                                prev.0[j].rid,
                            );
                        assert(crate::store::s_key_match(rows[m], out.0[k].rtype, out.0[k].rid));
                    }
                }
            }
        } else {
            assert forall|k: int| 0 <= k < out.0.len() implies has_key_c(
                c,
                (#[trigger] out.0[k]).rtype,
                out.0[k].rid,
            ) || has_key_rows(rows, out.0[k].rtype, out.0[k].rid) by {
                assert(has_key_c(c, prev.0[k].rtype, prev.0[k].rid) || has_key_rows(
                    dl,
                    prev.0[k].rtype,
                    prev.0[k].rid,
                ));
                if has_key_rows(dl, prev.0[k].rtype, prev.0[k].rid) {
                    let m = choose|m: int|
                        0 <= m < dl.len() && crate::store::s_key_match(
                            #[trigger] dl[m],
                            prev.0[k].rtype,
                            prev.0[k].rid,
                        );
                    assert(crate::store::s_key_match(rows[m], out.0[k].rtype, out.0[k].rid));
                }
            }
        }
    }
}

/// Every row of `sort_chunks(s)` is a row of `s`.
proof fn lemma_sort_chunks_membership(s: Seq<StagedView>)
    ensures
        forall|k: int|
            0 <= k < sort_chunks(s).len() ==> exists|j: int|
                0 <= j < s.len() && #[trigger] sort_chunks(s)[k] == s[j],
        sort_chunks(s).len() == s.len(),
    decreases s.len(),
{
    if s.len() > 0 {
        let dl = s.drop_last();
        lemma_sort_chunks_membership(dl);
        let sd = sort_chunks(dl);
        let x = s.last();
        lemma_insert_by_key_len(sd, x);
        assert forall|k: int| 0 <= k < sort_chunks(s).len() implies exists|j: int|
            0 <= j < s.len() && #[trigger] sort_chunks(s)[k] == s[j] by {
            lemma_insert_by_key_membership(sd, x, k);
            if sort_chunks(s)[k] == x {
                assert(sort_chunks(s)[k] == s[s.len() - 1]);
            } else {
                let m = choose|m: int| 0 <= m < sd.len() && sort_chunks(s)[k] == sd[m];
                let j = choose|j: int| 0 <= j < dl.len() && sd[m] == dl[j];
                assert(sort_chunks(s)[k] == s[j]);
            }
        }
    }
}

proof fn lemma_insert_by_key_len(s: Seq<StagedView>, x: StagedView)
    ensures
        insert_by_key(s, x).len() == s.len() + 1,
    decreases s.len(),
{
    if s.len() > 0 && !(chunk_sort_key(s.last().rid) <= chunk_sort_key(x.rid)) {
        lemma_insert_by_key_len(s.drop_last(), x);
    }
}

proof fn lemma_insert_by_key_membership(s: Seq<StagedView>, x: StagedView, k: int)
    requires
        0 <= k < insert_by_key(s, x).len(),
    ensures
        insert_by_key(s, x)[k] == x || exists|m: int|
            0 <= m < s.len() && insert_by_key(s, x)[k] == s[m],
    decreases s.len(),
{
    lemma_insert_by_key_len(s, x);
    if s.len() == 0 {
    } else if chunk_sort_key(s.last().rid) <= chunk_sort_key(x.rid) {
        if k < s.len() {
            assert(insert_by_key(s, x)[k] == s[k]);
        }
    } else {
        lemma_insert_by_key_len(s.drop_last(), x);
        if k == insert_by_key(s, x).len() - 1 {
            assert(insert_by_key(s, x)[k] == s[s.len() - 1]);
        } else {
            lemma_insert_by_key_membership(s.drop_last(), x, k);
            if !(insert_by_key(s.drop_last(), x)[k] == x) {
                let m = choose|m: int|
                    0 <= m < s.drop_last().len() && insert_by_key(s.drop_last(), x)[k]
                        == s.drop_last()[m];
                assert(insert_by_key(s, x)[k] == s[m]);
            }
        }
    }
}

impl SyncState {
    /// Promote a run of staged rows into the committed log, in order.
    pub fn promote_rows(&mut self, rows: &Vec<StagedRecord>, now_ms: i64)
        requires
            old(self)@.next_seq + rows@.len() <= i64::MAX,
            0 <= old(self)@.next_seq,
        ensures
            final(self)@ == (StateView {
                committed: spec_promote_rows(
                    old(self)@.committed,
                    old(self)@.next_seq,
                    rows@.map_values(|x: StagedRecord| x@),
                    now_ms,
                ).0,
                next_seq: spec_promote_rows(
                    old(self)@.committed,
                    old(self)@.next_seq,
                    rows@.map_values(|x: StagedRecord| x@),
                    now_ms,
                ).1,
                ..old(self)@
            }),
    {
        let ghost rv = rows@.map_values(|x: StagedRecord| x@);
        let n = rows.len();
        let mut k: usize = 0;
        proof {
            assert(rv.take(0) =~= Seq::<StagedView>::empty());
            assert(spec_promote_rows(old(self)@.committed, old(self)@.next_seq, rv.take(0), now_ms)
                == (old(self)@.committed, old(self)@.next_seq));
        }
        while k < n
            invariant
                0 <= k <= n,
                n == rows@.len(),
                rv == rows@.map_values(|x: StagedRecord| x@),
                old(self)@.next_seq + n <= i64::MAX,
                0 <= old(self)@.next_seq,
                self@.next_seq <= old(self)@.next_seq + k,
                0 <= self@.next_seq,
                (self@.committed, self@.next_seq) == spec_promote_rows(
                    old(self)@.committed,
                    old(self)@.next_seq,
                    rv.take(k as int),
                    now_ms,
                ),
                self@.staged == old(self)@.staged,
                self@.refs == old(self)@.refs,
                self@.user == old(self)@.user,
            decreases n - k,
        {
            proof {
                assert(rv.take(k as int + 1).drop_last() =~= rv.take(k as int));
                assert(rv.take(k as int + 1).last() == rv[k as int]);
            }
            let ghost c0 = self@.committed;
            let ghost n0 = self@.next_seq;
            let row = &rows[k];
            proof {
                assert(rv[k as int] == row@);
            }
            let idx = self.find_committed_idx(&row.record_type, &row.record_id);
            proof {
                crate::store::lemma_find_committed_from(c0, row@.rtype, row@.rid, 0);
            }
            let skip = match idx {
                Some(i) => !crate::hlc::hlc_is_newer(&row.hlc, &self.committed[i].hlc),
                None => false,
            };
            proof {
                assert(skip == (match crate::store::find_committed(
                    c0,
                    rv[k as int].rtype,
                    rv[k as int].rid,
                ) {
                    Some(i) => !crate::hlc::hlc_newer(rv[k as int].hlc, c0[i].hlc),
                    None => false,
                }));
            }
            if !skip {
                let seq = self.alloc_server_seq();
                let crow = row.to_committed(seq, now_ms);
                proof {
                    assert(crow@ == promoted_view(rv[k as int], (n0 + 1) as i64, now_ms));
                }
                self.upsert_committed(crow);
                proof {
                    assert(self@.committed == crate::store::spec_upsert_committed(
                        c0,
                        promoted_view(rv[k as int], (n0 + 1) as i64, now_ms),
                    ));
                    assert(self@.next_seq == (n0 + 1) as i64);
                }
            }
            proof {
                assert(spec_promote_one(c0, n0, rv[k as int], now_ms) == (
                    self@.committed,
                    self@.next_seq,
                ));
                assert((self@.committed, self@.next_seq) == spec_promote_rows(
                    old(self)@.committed,
                    old(self)@.next_seq,
                    rv.take(k as int + 1),
                    now_ms,
                ));
            }
            k = k + 1;
        }
        proof {
            assert(rv.take(n as int) =~= rv);
            assert(final(self)@ =~= (StateView {
                committed: spec_promote_rows(
                    old(self)@.committed,
                    old(self)@.next_seq,
                    rv,
                    now_ms,
                ).0,
                next_seq: spec_promote_rows(old(self)@.committed, old(self)@.next_seq, rv, now_ms).1,
                ..old(self)@
            }));
        }
    }
}

/// The rows a commit marker promotes: the staged meta row first, then the
/// staged chunk rows sorted by parsed index.
pub open spec fn commit_rows(st: StateView, aid: Seq<char>) -> Seq<StagedView> {
    let chunks = sort_chunks(st.staged.filter(chunk_of_pred(aid)));
    match find_staged(st.staged, att_type(), aid) {
        Some(i) => seq![st.staged[i]] + chunks,
        None => chunks,
    }
}

/// Effect of `commit_staged_attachment`: promote the attachment's staged
/// rows (meta before chunks, chunks by index), then drop them from
/// staging; a no-op when nothing is staged for it.
pub open spec fn spec_commit_staged(st: StateView, aid: Seq<char>, now: i64) -> StateView {
    let rows = commit_rows(st, aid);
    if rows.len() == 0 {
        st
    } else {
        let pr = spec_promote_rows(st.committed, st.next_seq, rows, now);
        StateView {
            committed: pr.0,
            next_seq: pr.1,
            staged: st.staged.filter(staged_keep_pred(aid)),
            ..st
        }
    }
}

/// Every promoted row is a staged row of `st` that belongs to `aid`.
proof fn lemma_commit_rows_membership(st: StateView, aid: Seq<char>)
    ensures
        forall|w: int|
            0 <= w < commit_rows(st, aid).len() ==> exists|u: int|
                0 <= u < st.staged.len() && #[trigger] commit_rows(st, aid)[w] == st.staged[u]
                    && staged_belongs_to(st.staged[u], aid),
{
    let chunks_src = st.staged.filter(chunk_of_pred(aid));
    let chunks = sort_chunks(chunks_src);
    lemma_sort_chunks_membership(chunks_src);
    lemma_filter_embedding(st.staged, chunk_of_pred(aid));
    st.staged.filter_lemma(chunk_of_pred(aid));
    crate::store::lemma_find_staged_from(st.staged, att_type(), aid, 0);
    let rows = commit_rows(st, aid);
    assert forall|w: int| 0 <= w < rows.len() implies exists|u: int|
        0 <= u < st.staged.len() && #[trigger] rows[w] == st.staged[u] && staged_belongs_to(
        st.staged[u],
        aid,
    ) by {
        match find_staged(st.staged, att_type(), aid) {
            Some(i) => {
                if w == 0 {
                    assert(rows[0] == st.staged[i]);
                    assert(crate::store::s_key_match(st.staged[i], att_type(), aid));
                    assert(staged_belongs_to(st.staged[i], aid));
                } else {
                    assert(rows[w] == chunks[w - 1]);
                    let m = choose|m: int|
                        0 <= m < chunks_src.len() && chunks[w - 1] == chunks_src[m];
                    assert(chunk_of_pred(aid)(chunks_src[m]));
                    let u = choose|u: int|
                        0 <= u < st.staged.len() && chunks_src[m] == st.staged[u];
                    assert(rows[w] == st.staged[u]);
                    assert(staged_belongs_to(st.staged[u], aid));
                }
            },
            None => {
                assert(rows[w] == chunks[w]);
                let m = choose|m: int| 0 <= m < chunks_src.len() && chunks[w] == chunks_src[m];
                assert(chunk_of_pred(aid)(chunks_src[m]));
                let u = choose|u: int|
                    0 <= u < st.staged.len() && chunks_src[m] == st.staged[u];
                assert(rows[w] == st.staged[u]);
                assert(staged_belongs_to(st.staged[u], aid));
            },
        }
    }
}

/// Committing preserves the key invariant: the staging store loses the
/// attachment's rows, and every new committed key stems from one of them.
#[verifier::rlimit(80)]
pub proof fn lemma_commit_staged_wf(st: StateView, aid: Seq<char>, now: i64)
    requires
        keys_wf(st),
        st.next_seq + st.staged.len() + 1 <= i64::MAX,
    ensures
        keys_wf(spec_commit_staged(st, aid, now)),
        forall|j: int|
            0 <= j < spec_commit_staged(st, aid, now).staged.len() ==> !staged_belongs_to(
                #[trigger] spec_commit_staged(st, aid, now).staged[j],
                aid,
            ),
{
    let rows = commit_rows(st, aid);
    let out = spec_commit_staged(st, aid, now);
    let chunks_src = st.staged.filter(chunk_of_pred(aid));
    lemma_sort_chunks_membership(chunks_src);
    st.staged.lemma_filter_len(chunk_of_pred(aid));
    st.staged.filter_lemma(chunk_of_pred(aid));
    st.staged.filter_lemma(staged_keep_pred(aid));
    st.staged.lemma_filter_len(staged_keep_pred(aid));
    lemma_filter_embedding(st.staged, staged_keep_pred(aid));
    lemma_commit_rows_membership(st, aid);
    crate::store::lemma_find_staged_from(st.staged, att_type(), aid, 0);
    if rows.len() == 0 {
        assert forall|j: int| 0 <= j < out.staged.len() implies !staged_belongs_to(
            #[trigger] out.staged[j],
            aid,
        ) by {
            if staged_belongs_to(out.staged[j], aid) {
                if crate::store::s_key_match(out.staged[j], att_type(), aid) {
                    assert(find_staged(st.staged, att_type(), aid) is Some);
                } else {
                    assert(chunk_of_pred(aid)(out.staged[j]));
                    assert(chunks_src.contains(st.staged[j]));
                    assert(chunks_src.len() > 0);
                }
            }
        }
    } else {
        assert(rows.len() <= st.staged.len() + 1);
        lemma_promote_rows_props(st.committed, st.next_seq, rows, now);
        let pr = spec_promote_rows(st.committed, st.next_seq, rows, now);
        let kept = st.staged.filter(staged_keep_pred(aid));
        // Staged rows kept are pairwise distinct and stageable.
        assert forall|i: int, j: int|
            0 <= i < kept.len() && 0 <= j < kept.len() && i != j implies !crate::store::s_key_match(
            #[trigger] kept[i],
            (#[trigger] kept[j]).rtype,
            kept[j].rid,
        ) by {
            if i < j {
                let (u1, u2) = choose|u1: int, u2: int|
                    0 <= u1 < u2 < st.staged.len() && kept[i] == st.staged[u1] && kept[j]
                        == st.staged[u2];
                assert(!crate::store::s_key_match(st.staged[u1], st.staged[u2].rtype, st.staged[u2].rid));
            } else {
                let (u1, u2) = choose|u1: int, u2: int|
                    0 <= u1 < u2 < st.staged.len() && kept[j] == st.staged[u1] && kept[i]
                        == st.staged[u2];
                assert(!crate::store::s_key_match(st.staged[u2], st.staged[u1].rtype, st.staged[u1].rid));
            }
        }
        assert forall|i: int| 0 <= i < kept.len() implies crate::records::is_stageable_type(
            (#[trigger] kept[i]).rtype,
        ) by {
            let u = choose|u: int| 0 <= u < st.staged.len() && kept[i] == st.staged[u];
            assert(crate::records::is_stageable_type(st.staged[u].rtype));
        }
        // No committed key collides with a kept staged key.
        assert forall|i: int, j: int|
            0 <= i < pr.0.len() && 0 <= j < kept.len() implies !crate::store::c_key_match(
            #[trigger] pr.0[i],
            (#[trigger] kept[j]).rtype,
            kept[j].rid,
        ) by {
            if crate::store::c_key_match(pr.0[i], kept[j].rtype, kept[j].rid) {
                let m = choose|m: int| 0 <= m < st.staged.len() && kept[j] == st.staged[m];
                assert(staged_keep_pred(aid)(kept[j]));
                if has_key_c(st.committed, pr.0[i].rtype, pr.0[i].rid) {
                    let idx = choose|idx: int|
                        0 <= idx < st.committed.len() && crate::store::c_key_match(
                            #[trigger] st.committed[idx],
                            pr.0[i].rtype,
                            pr.0[i].rid,
                        );
                    assert(crate::store::c_key_match(st.committed[idx], st.staged[m].rtype, st.staged[m].rid));
                } else {
                    assert(has_key_rows(rows, pr.0[i].rtype, pr.0[i].rid));
                    let w = choose|w: int|
                        0 <= w < rows.len() && crate::store::s_key_match(
                            #[trigger] rows[w],
                            pr.0[i].rtype,
                            pr.0[i].rid,
                        );
                    let u = choose|u: int|
                        0 <= u < st.staged.len() && rows[w] == st.staged[u] && staged_belongs_to(
                            st.staged[u],
                            aid,
                        );
                    if u == m {
                        assert(!staged_belongs_to(st.staged[m], aid));
                    } else {
                        assert(!crate::store::s_key_match(st.staged[u], st.staged[m].rtype, st.staged[m].rid));
                    }
                }
            }
        }
        assert forall|j: int| 0 <= j < out.staged.len() implies !staged_belongs_to(
            #[trigger] out.staged[j],
            aid,
        ) by {
            assert(staged_keep_pred(aid)(out.staged[j]));
        }
    }
}

impl SyncState {
    /// Process a commit marker: promote the attachment's staged meta and
    /// chunk rows into the committed log (meta first, then chunks by
    /// parsed index, each skipped when a committed counterpart is not
    /// strictly older), then delete those staged rows.
    pub fn commit_staged_attachment(&mut self, aid: &String, now_ms: i64)
        requires
            keys_wf(old(self)@),
            old(self)@.next_seq + old(self)@.staged.len() + 1 <= i64::MAX,
            sum_staged(old(self)@.staged) <= i64::MAX,
            old(self)@.staged.len() < i64::MAX,
        ensures
            final(self)@ == spec_commit_staged(old(self)@, aid@, now_ms),
            keys_wf(final(self)@),
            forall|j: int|
                0 <= j < final(self)@.staged.len() ==> !staged_belongs_to(
                    #[trigger] final(self)@.staged[j],
                    aid@,
                ),
    {
        proof {
            lemma_commit_staged_wf(old(self)@, aid@, now_ms);
        }
        let att_s: String = "todo_attachment".to_owned();
        let meta_idx = self.find_staged_idx(&att_s, aid);
        proof {
            crate::store::lemma_find_staged_from(self@.staged, att_type(), aid@, 0);
        }
        let mut rows: Vec<StagedRecord> = Vec::new();
        match meta_idx {
            Some(i) => {
                let m = self.staged[i].clone();
                rows.push(m);
            },
            None => {},
        }
        let chunks = self.gather_staged_chunks(aid);
        let sorted = sort_chunk_rows(chunks);
        let ghost sorted_v = sort_chunks(self@.staged.filter(chunk_of_pred(aid@)));
        let mut j: usize = 0;
        let n = sorted.len();
        let ghost base = rows@.map_values(|x: StagedRecord| x@);
        while j < n
            invariant
                0 <= j <= n,
                n == sorted@.len(),
                sorted@.map_values(|x: StagedRecord| x@) =~= sorted_v,
                rows@.map_values(|x: StagedRecord| x@) =~= base + sorted_v.take(j as int),
            decreases n - j,
        {
            let c = sorted[j].clone();
            proof {
                assert(c@ == sorted_v[j as int]);
                assert(sorted_v.take(j as int + 1) =~= sorted_v.take(j as int).push(
                    sorted_v[j as int],
                ));
            }
            let ghost mprev = rows@.map_values(|x: StagedRecord| x@);
            rows.push(c);
            proof {
                assert(rows@.map_values(|x: StagedRecord| x@) =~= mprev.push(c@));
                assert(mprev.push(c@) =~= base + sorted_v.take(j as int + 1));
                assert(rows@.map_values(|x: StagedRecord| x@) =~= base + sorted_v.take(
                    j as int + 1,
                ));
            }
            j = j + 1;
        }
        proof {
            assert(sorted_v.take(n as int) =~= sorted_v);
            assert(rows@.map_values(|x: StagedRecord| x@) =~= commit_rows(old(self)@, aid@));
        }
        if rows.len() == 0 {
            proof {
                assert(final(self)@ =~= spec_commit_staged(old(self)@, aid@, now_ms));
            }
            return ;
        }
        proof {
            lemma_sort_chunks_membership(old(self)@.staged.filter(chunk_of_pred(aid@)));
            old(self)@.staged.lemma_filter_len(chunk_of_pred(aid@));
        }
        self.promote_rows(&rows, now_ms);
        let _ = self.delete_staged_attachment(aid);
        proof {
            assert(final(self)@ =~= spec_commit_staged(old(self)@, aid@, now_ms));
        }
    }
}

/// Committing an attachment is idempotent: after one commit nothing of it
/// remains staged, and a second commit changes nothing.
pub proof fn lemma_commit_staged_idempotent(st: StateView, aid: Seq<char>, now: i64, now2: i64)
    ensures
        spec_commit_staged(spec_commit_staged(st, aid, now), aid, now2) == spec_commit_staged(
            st,
            aid,
            now,
        ),
{
    let st1 = spec_commit_staged(st, aid, now);
    let rows = commit_rows(st, aid);
    crate::store::lemma_find_staged_from(st.staged, att_type(), aid, 0);
    st.staged.filter_lemma(chunk_of_pred(aid));
    lemma_sort_chunks_membership(st.staged.filter(chunk_of_pred(aid)));
    if rows.len() == 0 {
        assert(st1 == st);
    } else {
        // After the commit, no staged row belongs to the attachment.
        st.staged.filter_lemma(staged_keep_pred(aid));
        lemma_filter_embedding(st.staged, staged_keep_pred(aid));
        let kept = st.staged.filter(staged_keep_pred(aid));
        assert(st1.staged == kept);
        crate::store::lemma_find_staged_from(kept, att_type(), aid, 0);
        match find_staged(kept, att_type(), aid) {
            Some(i) => {
                assert(crate::store::s_key_match(kept[i], att_type(), aid));
                assert(staged_keep_pred(aid)(kept[i]));
                assert(staged_belongs_to(kept[i], aid));
                assert(false);
            },
            None => {},
        }
        let chunks2 = kept.filter(chunk_of_pred(aid));
        kept.filter_lemma(chunk_of_pred(aid));
        lemma_filter_embedding(kept, chunk_of_pred(aid));
        if chunks2.len() > 0 {
            assert(chunk_of_pred(aid)(chunks2[0]));
            let j = choose|j: int| 0 <= j < kept.len() && chunks2[0] == kept[j];
            assert(staged_keep_pred(aid)(kept[j]));
            assert(staged_belongs_to(kept[j], aid));
            assert(false);
        }
        assert(chunks2 =~= Seq::<StagedView>::empty());
        assert(sort_chunks(chunks2).len() == 0);
        lemma_sort_chunks_membership(chunks2);
        assert(commit_rows(st1, aid).len() == 0);
    }
}

/// Wall clock of a server-authored tombstone: strictly above both the
/// existing stamp and the current time, saturating at the maximum.
pub open spec fn compact_wall(w: i64, now: i64) -> i64 {
    let m = if w >= now {
        w
    } else {
        now
    };
    if m == i64::MAX {
        m
    } else {
        (m + 1) as i64
    }
}

/// The tombstone that compaction writes over a committed chunk row: a
/// server-authored stamp, the attachment's deletion time, and empty
/// payloads; key, schema, key id and algorithm are kept.
pub open spec fn tombstone_of(r: CommittedView, seq: i64, del: i64, now: i64) -> CommittedView {
    CommittedView {
        rtype: r.rtype,
        rid: r.rid,
        hlc: crate::hlc::HlcView { wall: compact_wall(r.hlc.wall, now), counter: 0, device: "server"@ },
        deleted_at: Some(del),
        schema: r.schema,
        dek: r.dek,
        algo: r.algo,
        nonce: Seq::empty(),
        ciphertext: Seq::empty(),
        seq,
        updated_at: now,
    }
}

/// Is this committed row already a compacted tombstone?
pub open spec fn is_compacted(r: CommittedView) -> bool {
    r.deleted_at is Some && r.nonce.len() == 0 && r.ciphertext.len() == 0
}

/// Compact one committed chunk row, unless it is already a compacted
/// tombstone or no longer present.
pub open spec fn spec_compact_one(
    c: Seq<CommittedView>,
    next: i64,
    id: Seq<char>,
    del: i64,
    now: i64,
) -> (Seq<CommittedView>, i64) {
    match crate::store::find_committed(c, chunk_type(), id) {
        None => (c, next),
        Some(i) => {
            if is_compacted(c[i]) {
                (c, next)
            } else {
                (
                    crate::store::spec_upsert_committed(
                        c,
                        tombstone_of(c[i], (next + 1) as i64, del, now),
                    ),
                    (next + 1) as i64,
                )
            }
        },
    }
}

/// Compact a list of committed chunk rows in order.
pub open spec fn spec_compact_ids(
    c: Seq<CommittedView>,
    next: i64,
    ids: Seq<Seq<char>>,
    del: i64,
    now: i64,
) -> (Seq<CommittedView>, i64)
    decreases ids.len(),
{
    if ids.len() == 0 {
        (c, next)
    } else {
        let prev = spec_compact_ids(c, next, ids.drop_last(), del, now);
        spec_compact_one(prev.0, prev.1, ids.last(), del, now)
    }
}

/// Is this committed row a chunk of attachment `aid`?
pub open spec fn committed_chunk_pred(aid: Seq<char>) -> spec_fn(CommittedView) -> bool {
    |r: CommittedView| r.rtype == chunk_type() && crate::strutil::has_prefix(
        r.rid,
        chunk_prefix(aid),
    )
}

/// The record ids of the committed chunk rows of `aid`, in log order.
pub open spec fn committed_chunk_ids(c: Seq<CommittedView>, aid: Seq<char>) -> Seq<Seq<char>> {
    c.filter(committed_chunk_pred(aid)).map_values(|r: CommittedView| r.rid)
}

/// Compaction keeps the committed store well-formed and introduces no new
/// keys.
pub proof fn lemma_compact_ids_props(
    c: Seq<CommittedView>,
    next: i64,
    ids: Seq<Seq<char>>,
    del: i64,
    now: i64,
)
    requires
        committed_ok(c, next),
        next + ids.len() <= i64::MAX,
    ensures
        committed_ok(
            spec_compact_ids(c, next, ids, del, now).0,
            spec_compact_ids(c, next, ids, del, now).1,
        ),
        next <= spec_compact_ids(c, next, ids, del, now).1 <= next + ids.len(),
        forall|k: int|
            0 <= k < spec_compact_ids(c, next, ids, del, now).0.len() ==> has_key_c(
                c,
                (#[trigger] spec_compact_ids(c, next, ids, del, now).0[k]).rtype,
                spec_compact_ids(c, next, ids, del, now).0[k].rid,
            ),
    decreases ids.len(),
{
    if ids.len() > 0 {
        let dl = ids.drop_last();
        lemma_compact_ids_props(c, next, dl, del, now);
        let prev = spec_compact_ids(c, next, dl, del, now);
        let id = ids.last();
        let out = spec_compact_one(prev.0, prev.1, id, del, now);
        crate::store::lemma_find_committed_from(prev.0, chunk_type(), id, 0);
        match crate::store::find_committed(prev.0, chunk_type(), id) {
            None => {},
            Some(i) => {
                if !is_compacted(prev.0[i]) {
                    let nrow = tombstone_of(prev.0[i], (prev.1 + 1) as i64, del, now);
                    lemma_upsert_fresh_preserves(prev.0, prev.1, nrow);
                    assert forall|k: int| 0 <= k < out.0.len() implies has_key_c(
                        c,
                        (#[trigger] out.0[k]).rtype,
                        out.0[k].rid,
                    ) by {
                        if crate::store::c_key_match(out.0[k], nrow.rtype, nrow.rid) {
                            assert(crate::store::c_key_match(prev.0[i], out.0[k].rtype, out.0[k].rid));
                            assert(has_key_c(c, prev.0[i].rtype, prev.0[i].rid));
                            let m = choose|m: int|
                                0 <= m < c.len() && crate::store::c_key_match(
                                    #[trigger] c[m],
                                    prev.0[i].rtype,
                                    prev.0[i].rid,
                                );
                            assert(crate::store::c_key_match(c[m], out.0[k].rtype, out.0[k].rid));
                        } else {
                            let j = choose|j: int|
                                0 <= j < prev.0.len() && crate::store::c_key_match(
                                    out.0[k],
                                    (#[trigger] prev.0[j]).rtype,
                                    prev.0[j].rid,
                                );
                            assert(has_key_c(c, prev.0[j].rtype, prev.0[j].rid));
                            let m = choose|m: int|
                                0 <= m < c.len() && crate::store::c_key_match(
                                    #[trigger] c[m],
                                    prev.0[j].rtype,
                                    prev.0[j].rid,
                                );
                            assert(crate::store::c_key_match(c[m], out.0[k].rtype, out.0[k].rid));
                        }
                    }
                }
            },
        }
    }
}

impl SyncState {
    /// Collect the record ids of the committed chunk rows of `aid`, in
    /// log order.
    pub fn collect_committed_chunk_ids(&self, aid: &String) -> (r: Vec<String>)
        ensures
            r@.map_values(|x: String| x@) =~= committed_chunk_ids(self@.committed, aid@),
    {
        proof {
            reveal(Seq::filter);
        }
        let ghost pred = committed_chunk_pred(aid@);
        let pattern = aid.clone().concat(":");
        proof {
            reveal_strlit(":");
            assert(pattern@ =~= chunk_prefix(aid@));
        }
        let mut out: Vec<String> = Vec::new();
        let n = self.committed.len();
        let mut i: usize = 0;
        while i < n
            invariant
                0 <= i <= n,
                n == self.committed.len(),
                pattern@ == chunk_prefix(aid@),
                pred == committed_chunk_pred(aid@),
                out@.map_values(|x: String| x@) =~= self@.committed.take(i as int).filter(
                    pred,
                ).map_values(|r: CommittedView| r.rid),
            decreases n - i,
        {
            proof {
                reveal(Seq::filter);
                assert(self@.committed.take(i as int + 1).drop_last() =~= self@.committed.take(
                    i as int,
                ));
                assert(self@.committed.take(i as int + 1).last() == self@.committed[i as int]);
            }
            let row = &self.committed[i];
            let is_chunk = crate::strutil::str_eq(
                row.record_type.as_str(),
                "todo_attachment_chunk",
            ) && starts_with(row.record_id.as_str(), pattern.as_str());
            if is_chunk {
                let ghost mprev = out@.map_values(|x: String| x@);
                let cl = row.record_id.clone();
                out.push(cl);
                proof {
                    assert(out@.map_values(|x: String| x@) =~= mprev.push(
                        self@.committed[i as int].rid,
                    ));
                    assert(out@.map_values(|x: String| x@) =~= self@.committed.take(
                        i as int + 1,
                    ).filter(pred).map_values(|r: CommittedView| r.rid));
                }
            }
            i = i + 1;
        }
        proof {
            assert(self@.committed.take(n as int) =~= self@.committed);
        }
        out
    }

    /// Tombstone-compact every committed chunk row of a deleted
    /// attachment: allocate a fresh sequence number, stamp it with a
    /// server-authored clock, and empty its payload, skipping rows that
    /// are already compacted tombstones. How many rows were rewritten is
    /// not reported: the push handler, the only caller, has no use for
    /// the number, and the rewritten set is pinned by the contract.
    pub fn compact_committed_attachment_chunks(&mut self, aid: &String, deleted_at: i64, now_ms: i64)
        requires
            keys_wf(old(self)@),
            old(self)@.next_seq + old(self)@.committed.len() <= i64::MAX,
        ensures
            final(self)@ == (StateView {
                committed: spec_compact_ids(
                    old(self)@.committed,
                    old(self)@.next_seq,
                    committed_chunk_ids(old(self)@.committed, aid@),
                    deleted_at,
                    now_ms,
                ).0,
                next_seq: spec_compact_ids(
                    old(self)@.committed,
                    old(self)@.next_seq,
                    committed_chunk_ids(old(self)@.committed, aid@),
                    deleted_at,
                    now_ms,
                ).1,
                ..old(self)@
            }),
            keys_wf(final(self)@),
    {
        let ids = self.collect_committed_chunk_ids(aid);
        let ghost idv = ids@.map_values(|x: String| x@);
        proof {
            old(self)@.committed.lemma_filter_len(committed_chunk_pred(aid@));
            assert(idv.len() <= old(self)@.committed.len());
            lemma_compact_ids_props(
                old(self)@.committed,
                old(self)@.next_seq,
                idv,
                deleted_at,
                now_ms,
            );
        }
        let server_id: String = "server".to_owned();
        let chunk_s: String = "todo_attachment_chunk".to_owned();
        let n = ids.len();
        let mut k: usize = 0;
        proof {
            assert(idv.take(0) =~= Seq::<Seq<char>>::empty());
        }
        while k < n
            invariant
                0 <= k <= n,
                n == ids@.len(),
                idv == ids@.map_values(|x: String| x@),
                server_id@ == "server"@,
                chunk_s@ == chunk_type(),
                old(self)@.next_seq + old(self)@.committed.len() <= i64::MAX,
                idv.len() <= old(self)@.committed.len(),
                committed_ok(old(self)@.committed, old(self)@.next_seq),
                self@.next_seq <= old(self)@.next_seq + k,
                0 <= self@.next_seq,
                (self@.committed, self@.next_seq) == spec_compact_ids(
                    old(self)@.committed,
                    old(self)@.next_seq,
                    idv.take(k as int),
                    deleted_at,
                    now_ms,
                ),
                self@.staged == old(self)@.staged,
                self@.refs == old(self)@.refs,
                self@.user == old(self)@.user,
            decreases n - k,
        {
            proof {
                assert(idv.take(k as int + 1).drop_last() =~= idv.take(k as int));
                assert(idv.take(k as int + 1).last() == idv[k as int]);
                lemma_compact_ids_props(
                    old(self)@.committed,
                    old(self)@.next_seq,
                    idv.take(k as int),
                    deleted_at,
                    now_ms,
                );
            }
            let ghost c0 = self@.committed;
            let ghost n0 = self@.next_seq;
            let id = &ids[k];
            proof {
                assert(idv[k as int] == id@);
            }
            let idx = self.find_committed_idx(&chunk_s, id);
            proof {
                crate::store::lemma_find_committed_from(c0, chunk_type(), id@, 0);
            }
            match idx {
                Some(i) => {
                    let row = &self.committed[i];
                    let already = row.deleted_at_ms_utc.is_some() && row.nonce.as_str().is_empty()
                        && row.ciphertext.as_str().is_empty();
                    if !already {
                        let ghost rv = c0[i as int];
                        let wall0 = if row.hlc.wall_time_ms_utc >= now_ms {
                            row.hlc.wall_time_ms_utc
                        } else {
                            now_ms
                        };
                        let wall = if wall0 == i64::MAX {
                            wall0
                        } else {
                            wall0 + 1
                        };
                        let new_row = CommittedRecord {
                            record_type: row.record_type.clone(),
                            record_id: row.record_id.clone(),
                            hlc: crate::hlc::Hlc {
                                wall_time_ms_utc: wall,
                                counter: 0,
                                device_id: server_id.clone(),
                            },
                            deleted_at_ms_utc: Some(deleted_at),
                            schema_version: row.schema_version,
                            dek_id: row.dek_id.clone(),
                            payload_algo: row.payload_algo.clone(),
                            nonce: String::new(),
                            ciphertext: String::new(),
                            server_seq: 0,
                            updated_at_ms_utc: now_ms,
                        };
                        let seq = self.alloc_server_seq();
                        let new_row = CommittedRecord { server_seq: seq, ..new_row };
                        proof {
                            assert(new_row@ == tombstone_of(rv, (n0 + 1) as i64, deleted_at, now_ms));
                        }
                        self.upsert_committed(new_row);
                        proof {
                            assert(self@.committed == crate::store::spec_upsert_committed(
                                c0,
                                tombstone_of(rv, (n0 + 1) as i64, deleted_at, now_ms),
                            ));
                        }
                    } else {
                        proof {
                            assert(is_compacted(c0[i as int]));
                        }
                    }
                },
                None => {},
            }
            proof {
                assert(spec_compact_one(c0, n0, idv[k as int], deleted_at, now_ms) == (
                    self@.committed,
                    self@.next_seq,
                ));
                assert((self@.committed, self@.next_seq) == spec_compact_ids(
                    old(self)@.committed,
                    old(self)@.next_seq,
                    idv.take(k as int + 1),
                    deleted_at,
                    now_ms,
                ));
            }
            k = k + 1;
        }
        proof {
            assert(idv.take(n as int) =~= idv);
            assert(final(self)@ =~= (StateView {
                committed: spec_compact_ids(
                    old(self)@.committed,
                    old(self)@.next_seq,
                    idv,
                    deleted_at,
                    now_ms,
                ).0,
                next_seq: spec_compact_ids(
                    old(self)@.committed,
                    old(self)@.next_seq,
                    idv,
                    deleted_at,
                    now_ms,
                ).1,
                ..old(self)@
            }));
            lemma_compact_keys_wf(old(self)@, aid@, deleted_at, now_ms);
        }
    }
}

/// Compaction preserves the whole key invariant: no new keys appear and
/// the staging store is untouched.
proof fn lemma_compact_keys_wf(st: StateView, aid: Seq<char>, del: i64, now: i64)
    requires
        keys_wf(st),
        st.next_seq + st.committed.len() <= i64::MAX,
    ensures
        keys_wf(
            StateView {
                committed: spec_compact_ids(
                    st.committed,
                    st.next_seq,
                    committed_chunk_ids(st.committed, aid),
                    del,
                    now,
                ).0,
                next_seq: spec_compact_ids(
                    st.committed,
                    st.next_seq,
                    committed_chunk_ids(st.committed, aid),
                    del,
                    now,
                ).1,
                ..st
            },
        ),
{
    let ids = committed_chunk_ids(st.committed, aid);
    st.committed.lemma_filter_len(committed_chunk_pred(aid));
    lemma_compact_ids_props(st.committed, st.next_seq, ids, del, now);
    let pr = spec_compact_ids(st.committed, st.next_seq, ids, del, now);
    assert forall|i: int, j: int|
        0 <= i < pr.0.len() && 0 <= j < st.staged.len() implies !crate::store::c_key_match(
        #[trigger] pr.0[i],
        (#[trigger] st.staged[j]).rtype,
        st.staged[j].rid,
    ) by {
        if crate::store::c_key_match(pr.0[i], st.staged[j].rtype, st.staged[j].rid) {
            assert(has_key_c(st.committed, pr.0[i].rtype, pr.0[i].rid));
            let m = choose|m: int|
                0 <= m < st.committed.len() && crate::store::c_key_match(
                    #[trigger] st.committed[m],
                    pr.0[i].rtype,
                    pr.0[i].rid,
                );
            assert(crate::store::c_key_match(st.committed[m], st.staged[j].rtype, st.staged[j].rid));
        }
    }
}

/// Length and counter bounds of promotion, independent of any invariant.
pub proof fn lemma_promote_rows_len(
    c: Seq<CommittedView>,
    next: i64,
    rows: Seq<StagedView>,
    now: i64,
)
    requires
        next + rows.len() <= i64::MAX,
        0 <= next,
    ensures
        spec_promote_rows(c, next, rows, now).0.len() <= c.len() + rows.len(),
        next <= spec_promote_rows(c, next, rows, now).1 <= next + rows.len(),
    decreases rows.len(),
{
    if rows.len() > 0 {
        let dl = rows.drop_last();
        lemma_promote_rows_len(c, next, dl, now);
        let prev = spec_promote_rows(c, next, dl, now);
        let r = rows.last();
        let skip = match crate::store::find_committed(prev.0, r.rtype, r.rid) {
            Some(i) => !crate::hlc::hlc_newer(r.hlc, prev.0[i].hlc),
            None => false,
        };
        if !skip {
            crate::store::lemma_find_committed_from(prev.0, r.rtype, r.rid, 0);
            match crate::store::find_committed(prev.0, r.rtype, r.rid) {
                Some(i) => {
                    prev.0.remove_ensures(i);
                },
                None => {},
            }
        }
    }
}

/// Complementary filters split a sequence's length.
pub proof fn lemma_filter_complement_len<A>(s: Seq<A>, p: spec_fn(A) -> bool, q: spec_fn(A) -> bool)
    requires
        forall|x: A| #[trigger] p(x) <==> !q(x),
    ensures
        s.filter(p).len() + s.filter(q).len() == s.len(),
    decreases s.len(),
{
    reveal(Seq::filter);
    if s.len() > 0 {
        lemma_filter_complement_len(s.drop_last(), p, q);
    }
}

/// The staged rows belonging to an attachment number at least its chunk
/// rows plus its metadata row when one is staged.
pub proof fn lemma_belongs_len(s: Seq<StagedView>, aid: Seq<char>)
    ensures
        s.filter(|r: StagedView| staged_belongs_to(r, aid)).len() >= s.filter(
            chunk_of_pred(aid),
        ).len() + (if exists|j: int|
            0 <= j < s.len() && crate::store::s_key_match(#[trigger] s[j], att_type(), aid) {
            1int
        } else {
            0int
        }),
    decreases s.len(),
{
    reveal(Seq::filter);
    crate::records::lemma_types_distinct();
    if s.len() > 0 {
        let dl = s.drop_last();
        lemma_belongs_len(dl, aid);
        let x = s.last();
        if crate::store::s_key_match(x, att_type(), aid) {
            assert(staged_belongs_to(x, aid));
            assert(!(chunk_of_pred(aid)(x)));
        }
        if exists|j: int|
            0 <= j < s.len() && crate::store::s_key_match(#[trigger] s[j], att_type(), aid) {
            let j = choose|j: int|
                0 <= j < s.len() && crate::store::s_key_match(#[trigger] s[j], att_type(), aid);
            if j < s.len() - 1 {
                assert(crate::store::s_key_match(dl[j], att_type(), aid));
            }
        }
    }
}

/// Size bounds of a commit: the two stores together never gain rows, the
/// staging store never grows, and the counter advances by at most the
/// number of promoted rows.
pub proof fn lemma_commit_staged_lens(st: StateView, aid: Seq<char>, now: i64)
    requires
        0 <= st.next_seq,
        st.next_seq + st.staged.len() + 1 <= i64::MAX,
    ensures
        spec_commit_staged(st, aid, now).committed.len() + spec_commit_staged(
            st,
            aid,
            now,
        ).staged.len() <= st.committed.len() + st.staged.len(),
        spec_commit_staged(st, aid, now).staged.len() <= st.staged.len(),
        st.next_seq <= spec_commit_staged(st, aid, now).next_seq <= st.next_seq + st.staged.len()
            + 1,
        spec_commit_staged(st, aid, now).committed.len() <= st.committed.len() + st.staged.len()
            + 1,
{
    let rows = commit_rows(st, aid);
    let chunks_src = st.staged.filter(chunk_of_pred(aid));
    lemma_sort_chunks_membership(chunks_src);
    st.staged.lemma_filter_len(chunk_of_pred(aid));
    st.staged.lemma_filter_len(staged_keep_pred(aid));
    crate::store::lemma_find_staged_from(st.staged, att_type(), aid, 0);
    if rows.len() == 0 {
    } else {
        assert(rows.len() <= st.staged.len() + 1);
        lemma_promote_rows_len(st.committed, st.next_seq, rows, now);
        lemma_filter_complement_len(
            st.staged,
            staged_keep_pred(aid),
            |r: StagedView| staged_belongs_to(r, aid),
        );
        lemma_belongs_len(st.staged, aid);
        let kept = st.staged.filter(staged_keep_pred(aid));
        let meta_found = find_staged(st.staged, att_type(), aid) is Some;
        if meta_found {
            let i = find_staged(st.staged, att_type(), aid).unwrap();
            assert(exists|j: int|
                0 <= j < st.staged.len() && crate::store::s_key_match(
                    #[trigger] st.staged[j],
                    att_type(),
                    aid,
                ));
            assert(rows.len() == chunks_src.len() + 1);
        } else {
            assert(rows.len() == chunks_src.len());
        }
        assert(kept.len() + st.staged.filter(
            |r: StagedView| staged_belongs_to(r, aid),
        ).len() == st.staged.len());
        assert(st.staged.filter(|r: StagedView| staged_belongs_to(r, aid)).len() >= rows.len()
            - (if meta_found {
            1int
        } else {
            0int
        }) + (if meta_found {
            1int
        } else {
            0int
        }));
        assert(kept.len() <= st.staged.len() - rows.len());
    }
}

proof fn lemma_insert_by_key_sum(s: Seq<StagedView>, x: StagedView)
    ensures
        sum_staged(insert_by_key(s, x)) == sum_staged(s) + staged_size(x),
    decreases s.len(),
{
    if s.len() == 0 {
        assert(insert_by_key(s, x) =~= Seq::empty().push(x));
        crate::records::lemma_sum_staged_push(Seq::empty(), x);
    } else if chunk_sort_key(s.last().rid) <= chunk_sort_key(x.rid) {
        crate::records::lemma_sum_staged_push(s, x);
    } else {
        lemma_insert_by_key_sum(s.drop_last(), x);
        crate::records::lemma_sum_staged_push(insert_by_key(s.drop_last(), x), s.last());
    }
}

proof fn lemma_sort_chunks_sum(s: Seq<StagedView>)
    ensures
        sum_staged(sort_chunks(s)) == sum_staged(s),
    decreases s.len(),
{
    if s.len() > 0 {
        lemma_sort_chunks_sum(s.drop_last());
        lemma_insert_by_key_sum(sort_chunks(s.drop_last()), s.last());
    }
}

proof fn lemma_promote_rows_sum(c: Seq<CommittedView>, next: i64, rows: Seq<StagedView>, now: i64)
    ensures
        crate::records::sum_committed(spec_promote_rows(c, next, rows, now).0)
            <= crate::records::sum_committed(c) + sum_staged(rows),
    decreases rows.len(),
{
    crate::records::lemma_sum_staged_nonneg(rows);
    if rows.len() > 0 {
        let dl = rows.drop_last();
        lemma_promote_rows_sum(c, next, dl, now);
        crate::records::lemma_sum_staged_nonneg(dl);
        let prev = spec_promote_rows(c, next, dl, now);
        let r = rows.last();
        let skip = match crate::store::find_committed(prev.0, r.rtype, r.rid) {
            Some(i) => !crate::hlc::hlc_newer(r.hlc, prev.0[i].hlc),
            None => false,
        };
        if !skip {
            let nrow = promoted_view(r, (prev.1 + 1) as i64, now);
            crate::store::lemma_find_committed_from(prev.0, r.rtype, r.rid, 0);
            match crate::store::find_committed(prev.0, r.rtype, r.rid) {
                Some(i) => {
                    crate::records::lemma_sum_committed_remove(prev.0, i);
                    crate::records::lemma_sum_committed_push(prev.0.remove(i), nrow);
                },
                None => {
                    crate::records::lemma_sum_committed_push(prev.0, nrow);
                },
            }
        }
    }
}

proof fn lemma_filter_split_sum(
    s: Seq<StagedView>,
    p: spec_fn(StagedView) -> bool,
    q: spec_fn(StagedView) -> bool,
    r: spec_fn(StagedView) -> bool,
)
    requires
        forall|x: StagedView| #[trigger] p(x) <==> (q(x) || r(x)),
        forall|x: StagedView| #[trigger] q(x) ==> !r(x),
    ensures
        sum_staged(s.filter(p)) == sum_staged(s.filter(q)) + sum_staged(s.filter(r)),
    decreases s.len(),
{
    reveal(Seq::filter);
    if s.len() > 0 {
        lemma_filter_split_sum(s.drop_last(), p, q, r);
        let x = s.last();
        if p(x) {
            crate::records::lemma_sum_staged_push(s.drop_last().filter(p), x);
            if q(x) {
                crate::records::lemma_sum_staged_push(s.drop_last().filter(q), x);
            } else {
                crate::records::lemma_sum_staged_push(s.drop_last().filter(r), x);
            }
        }
    }
}

proof fn lemma_filter_complement_sum(
    s: Seq<StagedView>,
    p: spec_fn(StagedView) -> bool,
    q: spec_fn(StagedView) -> bool,
)
    requires
        forall|x: StagedView| #[trigger] p(x) <==> !q(x),
    ensures
        sum_staged(s.filter(p)) + sum_staged(s.filter(q)) == sum_staged(s),
    decreases s.len(),
{
    reveal(Seq::filter);
    if s.len() > 0 {
        lemma_filter_complement_sum(s.drop_last(), p, q);
        let x = s.last();
        if p(x) {
            crate::records::lemma_sum_staged_push(s.drop_last().filter(p), x);
        } else {
            crate::records::lemma_sum_staged_push(s.drop_last().filter(q), x);
        }
    }
}

/// Committing never increases the total stored bytes: every promoted row
/// leaves the staging store, and promotion overwrites rather than
/// duplicates.
pub proof fn lemma_commit_staged_sum(st: StateView, aid: Seq<char>, now: i64)
    requires
        keys_wf(st),
    ensures
        crate::store::total_b64_of(spec_commit_staged(st, aid, now)) <= crate::store::total_b64_of(
            st,
        ),
{
    let rows = commit_rows(st, aid);
    if rows.len() == 0 {
    } else {
        let out = spec_commit_staged(st, aid, now);
        let chunks_src = st.staged.filter(chunk_of_pred(aid));
        let meta_pred = |r: StagedView| r.rtype == att_type() && r.rid == aid;
        let belongs = |r: StagedView| staged_belongs_to(r, aid);
        crate::records::lemma_types_distinct();
        lemma_promote_rows_sum(st.committed, st.next_seq, rows, now);
        lemma_sort_chunks_sum(chunks_src);
        lemma_filter_complement_sum(st.staged, staged_keep_pred(aid), belongs);
        lemma_filter_split_sum(st.staged, belongs, meta_pred, chunk_of_pred(aid));
        crate::store::lemma_find_staged_from(st.staged, att_type(), aid, 0);
        crate::records::lemma_sum_staged_nonneg(st.staged.filter(meta_pred));
        match find_staged(st.staged, att_type(), aid) {
            Some(i) => {
                // The staged meta row is one of the meta-filtered rows.
                st.staged.filter_lemma(meta_pred);
                assert(meta_pred(st.staged[i]));
                assert(st.staged.filter(meta_pred).contains(st.staged[i]));
                let k = choose|k: int|
                    0 <= k < st.staged.filter(meta_pred).len() && st.staged.filter(meta_pred)[k]
                        == st.staged[i];
                crate::push::lemma_staged_size_le_sum(st.staged.filter(meta_pred), k);
                assert(sum_staged(rows) == staged_size(st.staged[i]) + sum_staged(
                    sort_chunks(chunks_src),
                )) by {
                    assert(rows =~= seq![st.staged[i]] + sort_chunks(chunks_src));
                    lemma_sum_head(st.staged[i], sort_chunks(chunks_src));
                }
                assert(sum_staged(rows) <= sum_staged(st.staged.filter(belongs)));
            },
            None => {
                assert(sum_staged(rows) <= sum_staged(st.staged.filter(belongs)));
            },
        }
    }
}

proof fn lemma_sum_head(x: StagedView, s: Seq<StagedView>)
    ensures
        sum_staged(seq![x] + s) == staged_size(x) + sum_staged(s),
    decreases s.len(),
{
    if s.len() == 0 {
        assert(seq![x] + s =~= seq![x]);
        assert(seq![x].drop_last() =~= Seq::<StagedView>::empty());
        assert(seq![x].last() == x);
        assert(sum_staged(seq![x]) == sum_staged(seq![x].drop_last()) + staged_size(x));
        assert(sum_staged(seq![x].drop_last()) == 0);
    } else {
        lemma_sum_head(x, s.drop_last());
        assert((seq![x] + s).drop_last() =~= seq![x] + s.drop_last());
        assert((seq![x] + s).last() == s.last());
    }
}

} // verus!
