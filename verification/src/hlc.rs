//! Hybrid logical clocks: the per-record version stamps that decide which
//! of two writes to the same key wins.
//!
//! An HLC is the triple `(wall_time_ms_utc, counter, device_id)`, totally
//! ordered lexicographically; the device id compares by Unicode code point,
//! which for opaque client strings coincides with UTF-8 byte order.

use vstd::prelude::*;

verus! {

/// A hybrid logical clock stamp attached to every envelope.
#[derive(Debug)]
pub struct Hlc {
    pub wall_time_ms_utc: i64,
    pub counter: i64,
    pub device_id: String,
}

/// Mathematical value of an [`Hlc`].
#[verifier::ext_equal]
pub ghost struct HlcView {
    pub wall: i64,
    pub counter: i64,
    pub device: Seq<char>,
}

impl Clone for Hlc {
    fn clone(&self) -> (r: Self)
        ensures
            r@ == self@,
    {
        Hlc {
            wall_time_ms_utc: self.wall_time_ms_utc,
            counter: self.counter,
            device_id: self.device_id.clone(),
        }
    }
}

impl View for Hlc {
    type V = HlcView;

    open spec fn view(&self) -> HlcView {
        HlcView {
            wall: self.wall_time_ms_utc,
            counter: self.counter,
            device: self.device_id@,
        }
    }
}

/// Strict lexicographic order on character sequences, comparing by Unicode
/// code point.
pub open spec fn seq_char_lt(a: Seq<char>, b: Seq<char>) -> bool
    decreases a.len(),
{
    if b.len() == 0 {
        false
    } else if a.len() == 0 {
        true
    } else if a[0] != b[0] {
        (a[0] as u32) < (b[0] as u32)
    } else {
        seq_char_lt(a.skip(1), b.skip(1))
    }
}

/// `a` is strictly newer than `b`: the triple of `a` is lexicographically
/// strictly greater than the triple of `b`.
pub open spec fn hlc_newer(a: HlcView, b: HlcView) -> bool {
    b.wall < a.wall || (b.wall == a.wall && (b.counter < a.counter || (b.counter == a.counter
        && seq_char_lt(b.device, a.device))))
}

proof fn lemma_seq_char_lt_step(a: Seq<char>, b: Seq<char>, i: int)
    requires
        0 <= i,
        i < a.len(),
        i < b.len(),
        a.skip(i)[0] == b.skip(i)[0],
    ensures
        seq_char_lt(a.skip(i), b.skip(i)) == seq_char_lt(a.skip(i + 1), b.skip(i + 1)),
{
    assert(a.skip(i).skip(1) =~= a.skip(i + 1));
    assert(b.skip(i).skip(1) =~= b.skip(i + 1));
}

/// Compare two strings in strict code-point order.
pub fn str_lt(a: &str, b: &str) -> (r: bool)
    ensures
        r == seq_char_lt(a@, b@),
{
    let a_len = a.unicode_len();
    let b_len = b.unicode_len();
    let mut i: usize = 0;
    assert(a@.skip(0) =~= a@);
    assert(b@.skip(0) =~= b@);
    while i < a_len && i < b_len
        invariant
            i <= a_len,
            i <= b_len,
            a_len == a@.len(),
            b_len == b@.len(),
            seq_char_lt(a@, b@) == seq_char_lt(a@.skip(i as int), b@.skip(i as int)),
        decreases a_len - i,
    {
        let ca = a.get_char(i);
        let cb = b.get_char(i);
        assert(a@.skip(i as int)[0] == a@[i as int]);
        assert(b@.skip(i as int)[0] == b@[i as int]);
        if ca != cb {
            assert(seq_char_lt(a@.skip(i as int), b@.skip(i as int)) == ((ca as u32) < (
            cb as u32)));
            return (ca as u32) < (cb as u32);
        }
        proof {
            lemma_seq_char_lt_step(a@, b@, i as int);
        }
        i = i + 1;
    }
    proof {
        assert(a@.skip(i as int).len() == a_len - i);
        assert(b@.skip(i as int).len() == b_len - i);
        if i >= b_len {
            assert(!seq_char_lt(a@.skip(i as int), b@.skip(i as int)));
        } else {
            assert(a@.skip(i as int).len() == 0);
            assert(seq_char_lt(a@.skip(i as int), b@.skip(i as int)));
        }
    }
    a_len < b_len
}

/// Is envelope stamp `a` strictly newer than stored stamp `b`?
pub fn hlc_is_newer(a: &Hlc, b: &Hlc) -> (r: bool)
    ensures
        r == hlc_newer(a@, b@),
{
    if b.wall_time_ms_utc != a.wall_time_ms_utc {
        b.wall_time_ms_utc < a.wall_time_ms_utc
    } else if b.counter != a.counter {
        b.counter < a.counter
    } else {
        str_lt(b.device_id.as_str(), a.device_id.as_str())
    }
}

/// The HLC order is irreflexive: no stamp is strictly newer than itself.
pub proof fn lemma_hlc_newer_irreflexive(a: HlcView)
    ensures
        !hlc_newer(a, a),
{
    lemma_seq_char_lt_irreflexive(a.device);
}

proof fn lemma_seq_char_lt_irreflexive(s: Seq<char>)
    ensures
        !seq_char_lt(s, s),
    decreases s.len(),
{
    if s.len() > 0 {
        lemma_seq_char_lt_irreflexive(s.skip(1));
    }
}

} // verus!
