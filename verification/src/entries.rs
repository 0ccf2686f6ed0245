//! Model of an ordered byte-keyed map as a sequence of key/value pairs held
//! in strictly increasing key order. The juror index is kept in such a map,
//! and the contracts of its operations are stated over this model.
use vstd::prelude::*;
use crate::bytes::{lex_lt, lemma_lex_lt_irreflexive, lemma_lex_lt_total, lemma_lex_lt_transitive};

verus! {

pub type Entries = Seq<(Seq<u8>, Seq<u8>)>;

/// Keys appear in strictly increasing lexicographic order (hence uniquely).
pub open spec fn wf_entries(es: Entries) -> bool {
    forall|i: int, j: int| 0 <= i < j < es.len() ==> lex_lt(es[i].0, es[j].0)
}

/// The value stored under `k`, if any.
pub open spec fn lookup(es: Entries, k: Seq<u8>) -> Option<Seq<u8>>
    decreases es.len(),
{
    if es.len() == 0 {
        None
    } else if es[0].0 == k {
        Some(es[0].1)
    } else {
        lookup(es.skip(1), k)
    }
}

/// Binds `k` to `v`, replacing an existing binding or inserting at the
/// position that keeps the keys ordered.
pub open spec fn put(es: Entries, k: Seq<u8>, v: Seq<u8>) -> Entries
    decreases es.len(),
{
    if es.len() == 0 {
        seq![(k, v)]
    } else if lex_lt(k, es[0].0) {
        seq![(k, v)] + es
    } else if k == es[0].0 {
        seq![(k, v)] + es.skip(1)
    } else {
        seq![es[0]] + put(es.skip(1), k, v)
    }
}

pub proof fn lemma_wf_skip(es: Entries)
    requires
        wf_entries(es),
        es.len() > 0,
    ensures
        wf_entries(es.skip(1)),
{
    assert(forall|i: int, j: int|
        0 <= i < j < es.skip(1).len() ==> lex_lt(es.skip(1)[i].0, es.skip(1)[j].0));
}

pub proof fn lemma_put_wf(es: Entries, k: Seq<u8>, v: Seq<u8>)
    requires
        wf_entries(es),
    ensures
        wf_entries(put(es, k, v)),
    decreases es.len(),
{
    if es.len() == 0 {
    } else if lex_lt(k, es[0].0) {
        let r = seq![(k, v)] + es;
        assert forall|i: int, j: int| 0 <= i < j < r.len() implies lex_lt(r[i].0, r[j].0) by {
            if i == 0 {
                if j == 1 {
                } else {
                    lemma_lex_lt_transitive(k, es[0].0, es[j - 1].0);
                }
            }
        }
    } else if k == es[0].0 {
        let r = seq![(k, v)] + es.skip(1);
        assert forall|i: int, j: int| 0 <= i < j < r.len() implies lex_lt(r[i].0, r[j].0) by {
            if i == 0 {
                assert(r[j].0 == es[j].0);
            } else {
                assert(r[i].0 == es[i].0 && r[j].0 == es[j].0);
            }
        }
    } else {
        lemma_lex_lt_total(k, es[0].0);
        lemma_wf_skip(es);
        lemma_put_wf(es.skip(1), k, v);
        let sub = put(es.skip(1), k, v);
        let r = seq![es[0]] + sub;
        assert forall|i: int, j: int| 0 <= i < j < r.len() implies lex_lt(r[i].0, r[j].0) by {
            if i == 0 {
                lemma_put_head_keys(es.skip(1), k, v, es[0].0);
            }
        }
    }
}

/// Every key of `put(es, k, v)` is `k` or a key of `es`; so a bound `lo`
/// strictly below `k` and below all of `es` stays below all of the result.
proof fn lemma_put_head_keys(es: Entries, k: Seq<u8>, v: Seq<u8>, lo: Seq<u8>)
    requires
        lex_lt(lo, k),
        forall|i: int| 0 <= i < es.len() ==> lex_lt(lo, es[i].0),
    ensures
        forall|i: int| 0 <= i < put(es, k, v).len() ==> lex_lt(lo, put(es, k, v)[i].0),
    decreases es.len(),
{
    if es.len() == 0 {
    } else if lex_lt(k, es[0].0) {
    } else if k == es[0].0 {
    } else {
        lemma_put_head_keys(es.skip(1), k, v, lo);
        let r = seq![es[0]] + put(es.skip(1), k, v);
        assert forall|i: int| 0 <= i < r.len() implies lex_lt(lo, r[i].0) by {
            if i > 0 {
                assert(r[i] == put(es.skip(1), k, v)[i - 1]);
            }
        }
    }
}

pub proof fn lemma_lookup_put_same(es: Entries, k: Seq<u8>, v: Seq<u8>)
    ensures
        lookup(put(es, k, v), k) == Some(v),
    decreases es.len(),
{
    if es.len() == 0 {
    } else if lex_lt(k, es[0].0) {
    } else if k == es[0].0 {
    } else {
        lemma_lookup_put_same(es.skip(1), k, v);
        let r = seq![es[0]] + put(es.skip(1), k, v);
        assert(r.skip(1) =~= put(es.skip(1), k, v));
        assert(r[0].0 == es[0].0);
        lemma_lex_lt_irreflexive(k);
        assert(es[0].0 != k);
    }
}

pub proof fn lemma_lookup_put_other(es: Entries, k: Seq<u8>, v: Seq<u8>, k2: Seq<u8>)
    requires
        k2 != k,
    ensures
        lookup(put(es, k, v), k2) == lookup(es, k2),
    decreases es.len(),
{
    if es.len() == 0 {
        let r = seq![(k, v)];
        assert(r[0].0 == k);
        assert(r.skip(1).len() == 0);
        assert(lookup(r.skip(1), k2) is None);
        assert(lookup(r, k2) is None);
    } else if lex_lt(k, es[0].0) {
        let r = seq![(k, v)] + es;
        assert(r.skip(1) =~= es);
        assert(r[0].0 == k);
        assert(lookup(r, k2) == lookup(es, k2));
    } else if k == es[0].0 {
        let r = seq![(k, v)] + es.skip(1);
        assert(r.skip(1) =~= es.skip(1));
        assert(r[0].0 == k);
        assert(lookup(r, k2) == lookup(es.skip(1), k2));
        assert(lookup(es, k2) == lookup(es.skip(1), k2));
    } else {
        lemma_lookup_put_other(es.skip(1), k, v, k2);
        let r = seq![es[0]] + put(es.skip(1), k, v);
        assert(r.skip(1) =~= put(es.skip(1), k, v));
        assert(r[0] == es[0]);
        assert(lookup(r, k2) == lookup(put(es, k, v), k2));
    }
}

} // verus!
verus! {

/// A successful lookup names a stored pair.
pub proof fn lemma_lookup_some_index(es: Entries, k: Seq<u8>)
    requires
        lookup(es, k) is Some,
    ensures
        exists|i: int|
            0 <= i < es.len() && es[i].0 == k && #[trigger] es[i].1 == lookup(es, k)->Some_0,
    decreases es.len(),
{
    if es.len() > 0 {
        if es[0].0 == k {
            assert(es[0].1 == lookup(es, k)->Some_0);
        } else {
            lemma_lookup_some_index(es.skip(1), k);
            let i = choose|i: int|
                0 <= i < es.skip(1).len() && es.skip(1)[i].0 == k && #[trigger] es.skip(1)[i].1
                    == lookup(es.skip(1), k)->Some_0;
            assert(es[i + 1].1 == lookup(es, k)->Some_0);
        }
    }
}

} // verus!
