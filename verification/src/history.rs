//! Per-juror change histories. A history is the ordered list of ledger
//! positions at which the juror's membership flipped, alternating
//! added/removed and starting with an addition; it is persisted as the
//! concatenation of the little-endian encodings of its entries.
use vstd::prelude::*;
use crate::bytes::{le32_bytes, le32_val, push_le32, read_le32};

verus! {

/// At most this many recorded transitions per juror; an addition that would
/// push a history past the bound is refused.
pub const MAX_HISTORY: usize = 8;

/// The history encoded in a stored value: one entry per full 4-byte word,
/// little endian; a trailing fragment carries no entry.
pub open spec fn hist_of_bytes(bs: Seq<u8>) -> Seq<u32> {
    Seq::new((bs.len() / 4) as nat, |i: int| le32_val(bs.subrange(4 * i, 4 * i + 4)))
}

/// The stored form of a history.
pub open spec fn bytes_of_hist(h: Seq<u32>) -> Seq<u8>
    decreases h.len(),
{
    if h.len() == 0 {
        Seq::empty()
    } else {
        bytes_of_hist(h.drop_last()) + le32_bytes(h.last())
    }
}

pub proof fn lemma_bytes_of_hist_len(h: Seq<u32>)
    ensures
        bytes_of_hist(h).len() == 4 * h.len(),
    decreases h.len(),
{
    if h.len() > 0 {
        lemma_bytes_of_hist_len(h.drop_last());
    }
}

/// Decoding the stored form gives the history back.
pub proof fn lemma_hist_roundtrip(h: Seq<u32>)
    ensures
        hist_of_bytes(bytes_of_hist(h)) == h,
    decreases h.len(),
{
    lemma_bytes_of_hist_len(h);
    if h.len() == 0 {
        assert(hist_of_bytes(bytes_of_hist(h)) =~= h);
    } else {
        lemma_hist_roundtrip(h.drop_last());
        lemma_bytes_of_hist_len(h.drop_last());
        let bs = bytes_of_hist(h);
        let prev = bytes_of_hist(h.drop_last());
        assert forall|i: int| 0 <= i < h.len() implies hist_of_bytes(bs)[i] == h[i] by {
            if i < h.len() - 1 {
                assert(bs.subrange(4 * i, 4 * i + 4) =~= prev.subrange(4 * i, 4 * i + 4));
                assert(hist_of_bytes(prev)[i] == h.drop_last()[i]);
            } else {
                assert(bs.subrange(4 * i, 4 * i + 4) =~= le32_bytes(h.last()));
                crate::bytes::lemma_le32_roundtrip(h.last());
            }
        }
        assert(hist_of_bytes(bs) =~= h);
    }
}

/// Whether a juror with history `h` is active at ledger position `p`: either
/// the history ends on an addition no later than `p`, or some recorded
/// added/removed pair spans `p`.
/// Whether the `i`-th recorded added/removed pair of `h` covers position `p`.
pub open spec fn span_covers(h: Seq<u32>, i: int, p: u32) -> bool {
    0 <= i && 2 * i + 1 < h.len() && h[2 * i] <= p && p < h[2 * i + 1]
}

pub open spec fn hist_active_at(h: Seq<u32>, p: u32) -> bool {
    (h.len() % 2 == 1 && h.last() <= p) || (exists|i: int| span_covers(h, i, p))
}

/// How an addition recorded at `at` changes a stored history, and when it is
/// refused for capacity. An absent juror gets a fresh one-entry history, an
/// inactive one is extended, an active one is left alone.
pub open spec fn add_refused(v: Option<Seq<u8>>) -> bool {
    match v {
        Option::None => false,
        Option::Some(b) => {
            let h = hist_of_bytes(b);
            h.len() % 2 == 0 && h.len() >= MAX_HISTORY
        },
    }
}

pub open spec fn add_upd(v: Option<Seq<u8>>, at: u32) -> Seq<u8> {
    match v {
        Option::None => bytes_of_hist(seq![at]),
        Option::Some(b) => {
            let h = hist_of_bytes(b);
            if h.len() % 2 == 0 {
                bytes_of_hist(h.push(at))
            } else {
                b
            }
        },
    }
}

/// The per-key effect of an addition at `at` on the value stored under a
/// key: untouched keys keep their value, listed ones get `add_upd`.
pub open spec fn add_result(v: Option<Seq<u8>>, in_list: bool, at: u32) -> Option<Seq<u8>> {
    if in_list {
        Option::Some(add_upd(v, at))
    } else {
        v
    }
}

/// How a removal recorded at `at` changes a stored history: an active juror
/// is extended with the removal position, anyone else is left alone.
pub open spec fn remove_upd(v: Option<Seq<u8>>, at: u32) -> Option<Seq<u8>> {
    match v {
        Option::None => Option::None,
        Option::Some(b) => {
            let h = hist_of_bytes(b);
            if h.len() % 2 == 1 {
                Option::Some(bytes_of_hist(h.push(at)))
            } else {
                Option::Some(b)
            }
        },
    }
}

/// The per-key effect of a removal at `at`.
pub open spec fn remove_result(v: Option<Seq<u8>>, in_list: bool, at: u32) -> Option<Seq<u8>> {
    if in_list {
        remove_upd(v, at)
    } else {
        v
    }
}

/// Converts a stored value back to its history (one entry per 4 bytes).
pub fn to_history(b: &Vec<u8>) -> (r: Vec<u32>)
    ensures
        r@ == hist_of_bytes(b@),
{
    let mut r: Vec<u32> = Vec::new();
    let blen = b.len();
    let n = blen / 4;
    let mut i: usize = 0;
    while i < n
        invariant
            blen == b@.len(),
            n == b@.len() / 4,
            0 <= i <= n,
            b@.len() >= 4 * n,
            r@.len() == i,
            forall|j: int| 0 <= j < i ==> r@[j] == hist_of_bytes(b@)[j],
        decreases n - i,
    {
        let w = read_le32(b, 4 * i);
        proof {
            assert(b@.subrange(4 * i as int, 4 * i as int + 4) =~= b@.subrange(
                4 * (i as int),
                4 * (i as int) + 4,
            ));
        }
        r.push(w);
        i = i + 1;
    }
    proof {
        assert(r@ =~= hist_of_bytes(b@));
    }
    r
}

/// Converts a history to its stored byte form.
pub fn from_history(history: &Vec<u32>) -> (r: Vec<u8>)
    ensures
        r@ == bytes_of_hist(history@),
{
    let mut r: Vec<u8> = Vec::new();
    let n = history.len();
    let mut i: usize = 0;
    while i < n
        invariant
            n == history@.len(),
            0 <= i <= n,
            r@ == bytes_of_hist(history@.take(i as int)),
        decreases n - i,
    {
        push_le32(&mut r, history[i]);
        proof {
            assert(history@.take(i + 1).drop_last() =~= history@.take(i as int));
            assert(history@.take(i + 1).last() == history@[i as int]);
        }
        i = i + 1;
    }
    proof {
        assert(history@.take(n as int) =~= history@);
    }
    r
}

/// Whether the history held in `b` marks its juror active at position `p`.
pub fn active_at(b: &Vec<u8>, p: u32) -> (r: bool)
    ensures
        r == hist_active_at(hist_of_bytes(b@), p),
{
    let h = to_history(b);
    let n = h.len();
    if n % 2 == 1 && h[n - 1] <= p {
        proof {
            assert(h@.last() == h@[n - 1]);
        }
        return true;
    }
    let pairs = n / 2;
    let mut i: usize = 0;
    while i < pairs
        invariant
            n == h@.len(),
            pairs == n / 2,
            h@ == hist_of_bytes(b@),
            0 <= i <= pairs,
            forall|j: int| 0 <= j < i ==> !span_covers(h@, j, p),
        decreases pairs - i,
    {
        if h[2 * i] <= p && p < h[2 * i + 1] {
            proof {
                let gi = i as int;
                assert(span_covers(h@, gi, p));
            }
            return true;
        }
        i = i + 1;
    }
    proof {
        if hist_active_at(h@, p) {
            if h@.len() % 2 == 1 && h@.last() <= p {
                assert(h@.last() == h@[n - 1]);
            } else {
                let j = choose|j: int| span_covers(h@, j, p);
                assert(j < pairs);
                assert(!span_covers(h@, j, p));
            }
        }
    }
    false
}

/// Recording an event at a later position never changes who was active at an
/// earlier one: a history only ever grows at its end, and an entry above `p`
/// can neither start nor end a span that covers `p` differently.
pub proof fn lemma_active_stable_under_append(h: Seq<u32>, at: u32, p: u32)
    requires
        p < at,
        forall|i: int| 0 <= i < h.len() ==> h[i] <= at,
    ensures
        hist_active_at(h.push(at), p) == hist_active_at(h, p),
{
    let h2 = h.push(at);
    assert(h2.last() == at);
    assert(h2.len() == h.len() + 1);
    if hist_active_at(h, p) {
        if h.len() % 2 == 1 && h.last() <= p {
            // The appended entry closes the open interval at `at > p`,
            // forming a span that still covers `p`.
            let i = (h.len() - 1) / 2 as int;
            assert(2 * i == h.len() - 1);
            assert(h2[2 * i] == h.last());
            assert(h2[2 * i + 1] == at);
            assert(span_covers(h2, i, p));
        } else {
            let i = choose|i: int| span_covers(h, i, p);
            assert(span_covers(h2, i, p));
        }
    }
    if hist_active_at(h2, p) {
        if h2.len() % 2 == 1 && h2.last() <= p {
            assert(false);
        } else {
            let i = choose|i: int| span_covers(h2, i, p);
            if 2 * i + 1 < h.len() {
                assert(span_covers(h, i, p));
            } else {
                // The covering span ends at the appended entry, so the old
                // history was open and active since h2[2 * i] <= p.
                assert(2 * i + 1 == h.len());
                assert(h.len() % 2 == 1);
                assert(h.last() == h2[2 * i]);
                assert(hist_active_at(h, p));
            }
        }
    }
}

} // verus!
