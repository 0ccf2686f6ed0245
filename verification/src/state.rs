//! The service state and its entry points: the allowlist gate, the juror
//! index, the pending batch with its certified root, and the committed
//! ledger with its hash chain.
use vstd::prelude::*;
use crate::bytes::{lex_lt, bytes_eq, be32_bytes, push_be32, arr32_to_vec, vec_to_arr32,
    clone_bytes, clone_blobs};
use crate::entries::{Entries, wf_entries, lookup, put, lemma_put_wf, lemma_lookup_put_same,
    lemma_lookup_put_other, lemma_lookup_some_index, lemma_wf_skip};
use crate::history::{MAX_HISTORY, hist_of_bytes, hist_active_at, add_upd, add_refused,
    add_result, remove_upd, remove_result, to_history, from_history, active_at,
    lemma_hist_roundtrip, lemma_bytes_of_hist_len, lemma_active_stable_under_append};
use crate::types::{Kind, Data, DataModel, Block, BlockModel, Error, clone_data, clone_block};

use crate::codec::{enc_data, enc_block, encode_data, encode_block};
use crate::sha::{sha256_of, sha256};
use crate::certmap::{pool_entries, pool_tree_new, pool_tree_clone, pool_tree_insert,
    pool_tree_get, pool_tree_entries, block_inserts, rbtree_root_of, witness_of, block_tree_new,
    block_tree_insert, block_tree_root, block_tree_witness, labeled_domain_sep, labeled_hash};
use crate::rng::{SeededRng, rng_from_seed, accepted, sampling_succeeds, sample, DRAW_LIMIT,
    lemma_accepted_in_range};
use crate::cbor::embedded_value;
use crate::hexcode::{hex_bytes, is_hex_digit, hex_decode};

verus! {

/// The label under which this service publishes its certified root.
pub open spec fn jury_label() -> Seq<u8> {
    seq![106u8, 117u8, 114u8, 121u8, 95u8, 98u8, 108u8, 111u8, 99u8, 107u8, 115u8]
}

/// The reserved certification-tree key holding the ledger tail hash.
pub open spec fn prev_key() -> Seq<u8> {
    seq![112u8, 114u8, 101u8, 118u8, 105u8, 111u8, 117u8, 115u8, 95u8, 104u8, 97u8, 115u8, 104u8]
}

/// The all-zero genesis hash used when none is configured.
pub open spec fn zero32() -> Seq<u8> {
    Seq::new(32, |i: int| 0u8)
}

/// An entry's previous hash either continues its own batch (equal to its
/// predecessor's) or anchors a new batch in the hash of the predecessor's
/// canonical encoding; the first entry ever anchors in the genesis hash.
pub open spec fn chained(log: Seq<BlockModel>, genesis: Seq<u8>) -> bool {
    &&& (log.len() > 0 ==> log[0].previous_hash == genesis)
    &&& (forall|i: int|
        1 <= i < log.len() ==> log[i].previous_hash == log[i - 1].previous_hash || log[i].previous_hash
            == sha256_of(#[trigger] enc_block(log[i - 1])))
}

/// Strictly increasing identities.
pub open spec fn sorted_keys(ks: Seq<Seq<u8>>) -> bool {
    forall|i: int, j: int| 0 <= i < j < ks.len() ==> lex_lt(ks[i], ks[j])
}

/// The certification-tree insertions for a batch: each event's canonical
/// hash under its big-endian logical position, then the tail hash under the
/// reserved key.
pub open spec fn inserts_spec(ds: Seq<DataModel>, offset: int, prev: Seq<u8>) -> Entries {
    Seq::new(ds.len(), |i: int| (be32_bytes((offset + i) as u32), sha256_of(enc_data(ds[i])))).push(
        (prev_key(), prev),
    )
}

/// The whole service state. Operations either complete or leave it exactly
/// as it was.
pub struct State {
    auth: Vec<Vec<u8>>,
    log: Vec<Block>,
    pending: Vec<Data>,
    genesis: Vec<u8>,
    self_id: Vec<u8>,
    jurors: ic_certified_map::RbTree<Vec<u8>, Vec<u8>>,
}

impl State {
    /// The juror index: stored history bytes by identity, in key order.
    pub closed spec fn entries(self) -> Entries {
        pool_entries(self.jurors)
    }

    /// The committed ledger, oldest first.
    pub closed spec fn log_view(self) -> Seq<BlockModel> {
        self.log@.map_values(|b: Block| b@)
    }

    /// The pending batch, in proposal order.
    pub closed spec fn pending_view(self) -> Seq<DataModel> {
        self.pending@.map_values(|d: Data| d@)
    }

    /// The allowlisted identities, in key order.
    pub closed spec fn auth_view(self) -> Seq<Seq<u8>> {
        self.auth@.map_values(|a: Vec<u8>| a@)
    }

    /// The configured genesis tail hash.
    pub closed spec fn genesis_hash(self) -> Seq<u8> {
        self.genesis@
    }

    /// This service's identity inside certificates.
    pub closed spec fn id(self) -> Seq<u8> {
        self.self_id@
    }

    /// Committed entries plus pending events: the logical position space.
    pub open spec fn total_len(self) -> int {
        self.log_view().len() + self.pending_view().len() as int
    }

    pub open spec fn authorized(self, caller: Seq<u8>) -> bool {
        self.auth_view().contains(caller)
    }

    /// The hash of the ledger tail: the genesis hash while the ledger is
    /// empty, else the hash of the last entry's canonical encoding.
    pub open spec fn tail_hash(self) -> Seq<u8> {
        if self.log_view().len() == 0 {
            self.genesis_hash()
        } else {
            sha256_of(enc_block(self.log_view().last()))
        }
    }

    /// The insertions of the certification tree over the current batch.
    pub open spec fn batch_inserts(self) -> Entries {
        inserts_spec(self.pending_view(), self.log_view().len() as int, self.tail_hash())
    }

    /// The externally certifiable value: the tree root under this service's
    /// label.
    pub open spec fn certified_value(self) -> Seq<u8> {
        sha256_of(labeled_domain_sep() + jury_label() + rbtree_root_of(self.batch_inserts()))
    }

    pub open spec fn wf(self) -> bool {
        &&& self.total_len() <= u32::MAX
        &&& wf_entries(self.entries())
        &&& (forall|i: int|
            0 <= i < self.entries().len() ==> (#[trigger] self.entries()[i].1).len() % 4 == 0)
        &&& (forall|i: int, j: int|
            0 <= i < self.entries().len() && 0 <= j < hist_of_bytes(self.entries()[i].1).len()
                ==> #[trigger] hist_of_bytes(self.entries()[i].1)[j] < self.total_len())
        &&& chained(self.log_view(), self.genesis_hash())
        &&& self.genesis_hash().len() == 32
        &&& sorted_keys(self.auth_view())
    }

    /// Whether `caller` may invoke mutating entry points.
    pub fn is_authorized(&self, caller: &Vec<u8>) -> (r: bool)
        ensures
            r == self.authorized(caller@),
    {
        let n = self.auth.len();
        let mut i: usize = 0;
        while i < n
            invariant
                n == self.auth@.len(),
                0 <= i <= n,
                forall|j: int| 0 <= j < i ==> self.auth_view()[j] != caller@,
            decreases n - i,
        {
            if bytes_eq(&self.auth[i], caller) {
                proof {
                    assert(self.auth_view()[i as int] == caller@);
                }
                return true;
            }
            i = i + 1;
        }
        proof {
            if self.authorized(caller@) {
                let j = choose|j: int| 0 <= j < self.auth_view().len() && self.auth_view()[j]
                    == caller@;
            }
        }
        false
    }

    /// Grants `principal` the right to mutate. Gated; an already authorized
    /// identity is left as it is.
    pub fn authorize(&mut self, caller: &Vec<u8>, principal: Vec<u8>) -> (r: Result<(), Error>)
        requires
            old(self).wf(),
        ensures
            final(self).wf(),
            !old(self).authorized(caller@) ==> r == Err::<(), Error>(Error::NotAuthorized) && *final(self) == *old(self),
            old(self).authorized(caller@) ==> r is Ok && sorted_keys(final(self).auth_view()) && (
            forall|k: Seq<u8>|
                final(self).authorized(k) <==> old(self).authorized(k) || k == principal@),
            final(self).log_view() == old(self).log_view(),
            final(self).pending_view() == old(self).pending_view(),
            final(self).entries() == old(self).entries(),
            final(self).genesis_hash() == old(self).genesis_hash(),
            final(self).id() == old(self).id(),
    {
        if !self.is_authorized(caller) {
            return Err(Error::NotAuthorized);
        }
        let n = self.auth.len();
        let mut i: usize = 0;
        while i < n && crate::bytes::bytes_lt(&self.auth[i], &principal)
            invariant
                n == self.auth@.len(),
                0 <= i <= n,
                forall|j: int| 0 <= j < i ==> lex_lt(self.auth_view()[j], principal@),
            decreases n - i,
        {
            i = i + 1;
        }
        if i < n && bytes_eq(&self.auth[i], &principal) {
            // Already present; the stored role is the only one there is.
            proof {
                assert(self.auth_view()[i as int] == principal@);
            }
            return Ok(());
        }
        let ghost pre = self.auth_view();
        proof {
            if i < n {
                crate::bytes::lemma_lex_lt_total(pre[i as int], principal@);
                assert(lex_lt(principal@, pre[i as int]));
            }
        }
        self.auth.insert(i, principal);
        proof {
            let post = self.auth_view();
            assert(post =~= pre.insert(i as int, principal@));
            assert forall|a: int, b: int| 0 <= a < b < post.len() implies lex_lt(
                post[a],
                post[b],
            ) by {
                if b < i {
                } else if a < i && b == i {
                    assert(post[a] == pre[a] && post[b] == principal@);
                } else if a < i && b > i {
                    assert(post[a] == pre[a] && post[b] == pre[b - 1]);
                } else if a == i && b > i {
                    assert(post[b] == pre[b - 1]);
                    if b - 1 > i {
                        assert(lex_lt(pre[i as int], pre[b - 1]));
                        crate::bytes::lemma_lex_lt_transitive(
                            principal@,
                            pre[i as int],
                            pre[b - 1],
                        );
                    }
                } else {
                    assert(post[a] == pre[a - 1] && post[b] == pre[b - 1]);
                }
            }
            assert forall|k: Seq<u8>| post.contains(k) implies pre.contains(k) || k
                == principal@ by {
                let j = choose|j: int| 0 <= j < post.len() && post[j] == k;
                if j < i {
                    assert(pre[j] == k);
                } else if j > i {
                    assert(pre[j - 1] == k);
                }
            }
            assert forall|k: Seq<u8>| pre.contains(k) implies post.contains(k) by {
                let j = choose|j: int| 0 <= j < pre.len() && pre[j] == k;
                if j < i {
                    assert(post[j] == k);
                } else {
                    assert(post[j + 1] == k);
                }
            }
            assert(post.contains(principal@)) by {
                assert(post[i as int] == principal@);
            }
        }
        Ok(())
    }

    /// Withdraws `principal`'s right to mutate. Gated; an identity that is
    /// not on the list cannot be withdrawn.
    pub fn deauthorize(&mut self, caller: &Vec<u8>, principal: &Vec<u8>) -> (r: Result<(), Error>)
        requires
            old(self).wf(),
        ensures
            final(self).wf(),
            !old(self).authorized(caller@) ==> r == Err::<(), Error>(Error::NotAuthorized) && *final(self) == *old(self),
            old(self).authorized(caller@) && !old(self).authorized(principal@) ==> r == Err::<
                (),
                Error,
            >(Error::NotFound) && *final(self) == *old(self),
            old(self).authorized(caller@) && old(self).authorized(principal@) ==> r is Ok
                && sorted_keys(final(self).auth_view()) && (forall|k: Seq<u8>|
                final(self).authorized(k) <==> old(self).authorized(k) && k != principal@),
            final(self).log_view() == old(self).log_view(),
            final(self).pending_view() == old(self).pending_view(),
            final(self).entries() == old(self).entries(),
            final(self).genesis_hash() == old(self).genesis_hash(),
            final(self).id() == old(self).id(),
    {
        if !self.is_authorized(caller) {
            return Err(Error::NotAuthorized);
        }
        let n = self.auth.len();
        let mut i: usize = 0;
        while i < n
            invariant
                *self == *old(self),
                old(self).wf(),
                old(self).authorized(caller@),
                n == self.auth@.len(),
                0 <= i <= n,
                forall|j: int| 0 <= j < i ==> self.auth_view()[j] != principal@,
            decreases n - i,
        {
            if bytes_eq(&self.auth[i], principal) {
                let ghost pre = self.auth_view();
                proof {
                    assert(sorted_keys(pre));
                    assert(pre[i as int] == principal@);
                }
                self.auth.remove(i);
                proof {
                    let post = self.auth_view();
                    assert(post =~= pre.remove(i as int));
                    assert forall|a: int, b: int| 0 <= a < b < post.len() implies lex_lt(
                        post[a],
                        post[b],
                    ) by {
                        if a < i && b >= i {
                            assert(post[a] == pre[a] && post[b] == pre[b + 1]);
                        } else if a >= i {
                            assert(post[a] == pre[a + 1] && post[b] == pre[b + 1]);
                        }
                    }
                    assert forall|k: Seq<u8>| post.contains(k) implies pre.contains(k) && k
                        != principal@ by {
                        let j = choose|j: int| 0 <= j < post.len() && post[j] == k;
                        if j < i {
                            assert(pre[j] == k);
                            if k == principal@ {
                                assert(lex_lt(pre[j], pre[i as int]));
                                crate::bytes::lemma_lex_lt_irreflexive(k);
                            }
                        } else {
                            assert(pre[j + 1] == k);
                            if k == principal@ {
                                assert(lex_lt(pre[i as int], pre[j + 1]));
                                crate::bytes::lemma_lex_lt_irreflexive(k);
                            }
                        }
                    }
                    assert forall|k: Seq<u8>| pre.contains(k) && k != principal@ implies
                        post.contains(k) by {
                        let j = choose|j: int| 0 <= j < pre.len() && pre[j] == k;
                        if j < i {
                            assert(post[j] == k);
                        } else if j > i {
                            assert(post[j - 1] == k);
                        }
                    }
                }
                return Ok(());
            }
            i = i + 1;
        }
        proof {
            if self.authorized(principal@) {
                let j = choose|j: int| 0 <= j < self.auth_view().len() && self.auth_view()[j]
                    == principal@;
            }
        }
        Err(Error::NotFound)
    }

    /// The allowlisted identities, in key order.
    pub fn get_authorized(&self) -> (r: Vec<Vec<u8>>)
        ensures
            r@.len() == self.auth_view().len(),
            forall|i: int| 0 <= i < r@.len() ==> r@[i]@ == self.auth_view()[i],
    {
        clone_blobs(&self.auth)
    }

    /// Total logical length: committed entries plus pending events.
    pub fn length(&self) -> (r: u32)
        requires
            self.wf(),
        ensures
            r as int == self.total_len(),
    {
        (self.log.len() + self.pending.len()) as u32
    }

    /// The number of pending, not yet committed events.
    pub fn get_pending(&self) -> (r: u32)
        requires
            self.wf(),
        ensures
            r as int == self.pending_view().len(),
    {
        self.pending.len() as u32
    }

    /// Appends an event to the pending batch.
    pub fn push_pending(&mut self, data: &Data)
        requires
            old(self).wf(),
            old(self).total_len() < u32::MAX,
        ensures
            final(self).wf(),
            final(self).pending_view() == old(self).pending_view().push(data@),
            final(self).log_view() == old(self).log_view(),
            final(self).entries() == old(self).entries(),
            final(self).auth_view() == old(self).auth_view(),
            final(self).genesis_hash() == old(self).genesis_hash(),
            final(self).id() == old(self).id(),
    {
        self.pending.push(clone_data(data));
        proof {
            assert(self.pending_view() =~= old(self).pending_view().push(data@));
        }
    }

    /// The hash of the current ledger tail.
    pub fn get_previous_hash(&self) -> (r: [u8; 32])
        requires
            self.wf(),
        ensures
            r@ == self.tail_hash(),
    {
        if self.log.len() == 0 {
            vec_to_arr32(&self.genesis)
        } else {
            let encoded = encode_block(&self.log[self.log.len() - 1]);
            proof {
                assert(self.log@[self.log@.len() - 1]@ == self.log_view().last());
            }
            sha256(&encoded)
        }
    }

    /// The service's label as bytes.
    fn jury_label_bytes() -> (r: Vec<u8>)
        ensures
            r@ == jury_label(),
    {
        let mut v: Vec<u8> = Vec::new();
        v.push(106);
        v.push(117);
        v.push(114);
        v.push(121);
        v.push(95);
        v.push(98);
        v.push(108);
        v.push(111);
        v.push(99);
        v.push(107);
        v.push(115);
        proof {
            assert(v@ =~= jury_label());
        }
        v
    }

    /// The reserved tail-hash key as bytes.
    fn prev_key_bytes() -> (r: Vec<u8>)
        ensures
            r@ == prev_key(),
    {
        let mut v: Vec<u8> = Vec::new();
        v.push(112);
        v.push(114);
        v.push(101);
        v.push(118);
        v.push(105);
        v.push(111);
        v.push(117);
        v.push(115);
        v.push(95);
        v.push(104);
        v.push(97);
        v.push(115);
        v.push(104);
        proof {
            assert(v@ =~= prev_key());
        }
        v
    }

    /// Builds the certification tree over the pending batch and the given
    /// tail hash.
    fn build_tree(&self, previous_hash: &[u8; 32]) -> (r: ic_certified_map::RbTree<Vec<u8>, [u8;
        32]>)
        requires
            self.wf(),
        ensures
            block_inserts(r) == inserts_spec(
                self.pending_view(),
                self.log_view().len() as int,
                previous_hash@,
            ),
    {
        let mut tree = block_tree_new();
        let offset = self.log.len() as u32;
        let n = self.pending.len();
        let ghost ds = self.pending_view();
        let ghost off = self.log_view().len() as int;
        let mut i: usize = 0;
        while i < n
            invariant
                self.wf(),
                n == self.pending@.len(),
                ds == self.pending_view(),
                off == self.log_view().len() as int,
                offset == off,
                off + n <= u32::MAX,
                0 <= i <= n,
                block_inserts(tree) == Seq::new(
                    i as nat,
                    |j: int| (be32_bytes((off + j) as u32), sha256_of(enc_data(ds[j]))),
                ),
            decreases n - i,
        {
            let mut key: Vec<u8> = Vec::new();
            push_be32(&mut key, offset + i as u32);
            let encoded = encode_data(&self.pending[i]);
            let h = sha256(&encoded);
            block_tree_insert(&mut tree, key, h);
            proof {
                assert(block_inserts(tree) =~= Seq::new(
                    (i + 1) as nat,
                    |j: int| (be32_bytes((off + j) as u32), sha256_of(enc_data(ds[j]))),
                ));
            }
            i = i + 1;
        }
        let pk = Self::prev_key_bytes();
        let ph: [u8; 32] = *previous_hash;
        block_tree_insert(&mut tree, pk, ph);
        proof {
            assert(block_inserts(tree) =~= inserts_spec(ds, off, previous_hash@));
        }
        tree
    }

    /// The value this service publishes for certification: the root of the
    /// certification tree over the current batch and tail, under the
    /// service's label.
    pub fn certified_data(&self) -> (r: Vec<u8>)
        requires
            self.wf(),
        ensures
            r@ == self.certified_value(),
    {
        let prev = self.get_previous_hash();
        let tree = self.build_tree(&prev);
        let root = block_tree_root(&tree);
        let label = Self::jury_label_bytes();
        let lh = labeled_hash(&label, &root);
        arr32_to_vec(&lh)
    }

    /// Hands out the host-provided certificate token only while something is
    /// pending; a token for an empty batch certifies nothing.
    pub fn get_certificate(&self, data_certificate: Option<Vec<u8>>) -> (r: Option<Vec<u8>>)
        ensures
            self.pending_view().len() == 0 ==> r is None,
            self.pending_view().len() > 0 ==> r == data_certificate,
    {
        if self.pending.len() == 0 {
            None
        } else {
            data_certificate
        }
    }
}

/// Builds the initial state: the creating identity is auto-authorized, the
/// ledger is empty, and the genesis tail hash is taken from the given hex
/// string when it decodes to exactly 32 bytes, else all zeroes.
pub fn init(caller: Vec<u8>, self_id: Vec<u8>, previous_hash: Option<String>) -> (r: State)
    ensures
        r.wf(),
        r.auth_view() == seq![caller@],
        r.log_view() == Seq::<BlockModel>::empty(),
        r.pending_view() == Seq::<DataModel>::empty(),
        r.entries() == Seq::<(Seq<u8>, Seq<u8>)>::empty(),
        r.id() == self_id@,
        r.genesis_hash() == match previous_hash {
            Option::Some(s) => if s@.len() % 2 == 0 && (forall|i: int|
                0 <= i < s@.len() ==> is_hex_digit(s@[i])) && hex_bytes(s@).len() == 32 {
                hex_bytes(s@)
            } else {
                zero32()
            },
            Option::None => zero32(),
        },
{
    let genesis: Vec<u8> = match &previous_hash {
        Option::Some(s) => {
            match hex_decode(s) {
                Option::Some(v) => {
                    if v.len() == 32 {
                        v
                    } else {
                        zeros32()
                    }
                },
                Option::None => zeros32(),
            }
        },
        Option::None => zeros32(),
    };
    let ghost cv = caller@;
    let mut auth: Vec<Vec<u8>> = Vec::new();
    auth.push(caller);
    let r = State {
        auth,
        log: Vec::new(),
        pending: Vec::new(),
        genesis,
        self_id,
        jurors: pool_tree_new(),
    };
    proof {
        assert(r.auth_view() =~= seq![cv]);
        assert(r.log_view() =~= Seq::<BlockModel>::empty());
        assert(r.pending_view() =~= Seq::<DataModel>::empty());
    }
    r
}

/// Thirty-two zero bytes.
fn zeros32() -> (r: Vec<u8>)
    ensures
        r@ == zero32(),
{
    let mut v: Vec<u8> = Vec::new();
    let mut i: usize = 0;
    while i < 32
        invariant
            0 <= i <= 32,
            v@.len() == i,
            forall|j: int| 0 <= j < i ==> v@[j] == 0u8,
        decreases 32 - i,
    {
        v.push(0);
        i = i + 1;
    }
    proof {
        assert(v@ =~= zero32());
    }
    v
}

} // verus!
// Point-in-time pool queries.
verus! {

/// The identities active at position `p`, in key order: the subsequence of
/// entries whose history marks them active.
pub open spec fn pool_of(es: Entries, p: u32) -> Seq<Seq<u8>>
    decreases es.len(),
{
    if es.len() == 0 {
        Seq::empty()
    } else {
        let rest = pool_of(es.drop_last(), p);
        if hist_active_at(hist_of_bytes(es.last().1), p) {
            rest.push(es.last().0)
        } else {
            rest
        }
    }
}

/// Pool identities inherit any strict upper bound on the keys.
proof fn lemma_pool_below(es: Entries, p: u32, hi: Seq<u8>)
    requires
        forall|i: int| 0 <= i < es.len() ==> lex_lt(#[trigger] es[i].0, hi),
    ensures
        forall|a: int| 0 <= a < pool_of(es, p).len() ==> lex_lt(#[trigger] pool_of(es, p)[a], hi),
    decreases es.len(),
{
    if es.len() > 0 {
        assert(forall|i: int|
            0 <= i < es.drop_last().len() ==> lex_lt(#[trigger] es.drop_last()[i].0, hi));
        lemma_pool_below(es.drop_last(), p, hi);
        let rest = pool_of(es.drop_last(), p);
        let pl = pool_of(es, p);
        assert forall|a: int| 0 <= a < pl.len() implies lex_lt(pl[a], hi) by {
            if a < rest.len() {
                assert(pl[a] == rest[a]);
            } else {
                assert(pl[a] == es.last().0);
                assert(es.last().0 == es[es.len() - 1].0);
            }
        }
    }
}

/// The pool lists identities in strictly increasing key order; in
/// particular, each appears once.
pub proof fn lemma_pool_sorted(es: Entries, p: u32)
    requires
        wf_entries(es),
    ensures
        forall|a: int, b: int|
            0 <= a < b < pool_of(es, p).len() ==> lex_lt(pool_of(es, p)[a], pool_of(es, p)[b]),
    decreases es.len(),
{
    if es.len() > 0 {
        let prev = es.drop_last();
        assert(wf_entries(prev)) by {
            assert(forall|i: int, j: int|
                0 <= i < j < prev.len() ==> lex_lt(#[trigger] prev[i].0, #[trigger] prev[j].0));
        }
        lemma_pool_sorted(prev, p);
        assert(forall|i: int| 0 <= i < prev.len() ==> lex_lt(#[trigger] prev[i].0, es.last().0));
        lemma_pool_below(prev, p, es.last().0);
        let rest = pool_of(prev, p);
        let pl = pool_of(es, p);
        assert forall|a: int, b: int| 0 <= a < b < pl.len() implies lex_lt(pl[a], pl[b]) by {
            if b < rest.len() {
                assert(pl[a] == rest[a] && pl[b] == rest[b]);
            } else {
                assert(pl[a] == rest[a]);
                assert(pl[b] == es.last().0);
            }
        }
    }
}

pub proof fn lemma_pool_distinct(es: Entries, p: u32)
    requires
        wf_entries(es),
    ensures
        forall|a: int, b: int|
            0 <= a < pool_of(es, p).len() && 0 <= b < pool_of(es, p).len() && a != b ==> pool_of(
                es,
                p,
            )[a] != pool_of(es, p)[b],
{
    lemma_pool_sorted(es, p);
    assert forall|a: int, b: int|
        0 <= a < pool_of(es, p).len() && 0 <= b < pool_of(es, p).len() && a != b implies pool_of(
        es,
        p,
    )[a] != pool_of(es, p)[b] by {
        if a < b {
            crate::bytes::lemma_lex_lt_irreflexive(pool_of(es, p)[a]);
        } else {
            crate::bytes::lemma_lex_lt_irreflexive(pool_of(es, p)[a]);
        }
    }
}

impl State {
    /// The identities active as of position `index`, in key order.
    pub fn collect_pool(&self, index: u32) -> (r: Vec<Vec<u8>>)
        ensures
            r@.len() == pool_of(self.entries(), index).len(),
            forall|i: int| 0 <= i < r@.len() ==> r@[i]@ == pool_of(self.entries(), index)[i],
    {
        let entries = pool_tree_entries(&self.jurors);
        let ghost es = self.entries();
        let mut pool: Vec<Vec<u8>> = Vec::new();
        let n = entries.len();
        let mut i: usize = 0;
        while i < n
            invariant
                n == entries@.len(),
                es == self.entries(),
                es.len() == n,
                forall|j: int| 0 <= j < n ==> entries@[j].0@ == es[j].0 && entries@[j].1@ == es[j].1,
                0 <= i <= n,
                pool@.len() == pool_of(es.take(i as int), index).len(),
                forall|j: int|
                    0 <= j < pool@.len() ==> pool@[j]@ == pool_of(es.take(i as int), index)[j],
            decreases n - i,
        {
            proof {
                assert(es.take(i + 1).drop_last() =~= es.take(i as int));
                assert(es.take(i + 1).last() == es[i as int]);
            }
            if active_at(&entries[i].1, index) {
                pool.push(clone_bytes(&entries[i].0));
            }
            i = i + 1;
        }
        proof {
            assert(es.take(n as int) =~= es);
        }
        pool
    }

    /// A window of the pool at `index`: `length` identities starting at
    /// `start`, or nothing-found when the window exceeds the pool.
    pub fn get_pool(&self, index: u32, start: u32, length: u32) -> (r: Result<Vec<Vec<u8>>, Error>)
        ensures
            ({
                let pool = pool_of(self.entries(), index);
                if start + length <= pool.len() {
                    r matches Ok(v) && v@.len() == length && (forall|i: int|
                        0 <= i < length ==> v@[i]@ == pool[start + i])
                } else {
                    r == Err::<Vec<Vec<u8>>, Error>(Error::NotFound)
                }
            }),
    {
        let pool = self.collect_pool(index);
        let n = pool.len();
        if (start as u64) + (length as u64) > n as u64 {
            return Err(Error::NotFound);
        }
        let mut r: Vec<Vec<u8>> = Vec::new();
        let mut i: usize = 0;
        while i < length as usize
            invariant
                start + length <= n <= usize::MAX,
                n == pool@.len(),
                pool@.len() == pool_of(self.entries(), index).len(),
                forall|j: int|
                    0 <= j < pool@.len() ==> pool@[j]@ == pool_of(self.entries(), index)[j],
                0 <= i <= length,
                r@.len() == i,
                forall|j: int|
                    0 <= j < i ==> r@[j]@ == pool_of(self.entries(), index)[start + j],
            decreases length - i,
        {
            r.push(clone_bytes(&pool[start as usize + i]));
            i = i + 1;
        }
        Ok(r)
    }

    /// How many identities are active as of `index` (clamped to the
    /// position type's range).
    pub fn get_pool_size(&self, index: u32) -> (r: u32)
        ensures
            pool_of(self.entries(), index).len() <= u32::MAX ==> r as int == pool_of(
                self.entries(),
                index,
            ).len(),
            pool_of(self.entries(), index).len() > u32::MAX ==> r == u32::MAX,
    {
        let pool = self.collect_pool(index);
        let n = pool.len();
        if n > u32::MAX as usize {
            u32::MAX
        } else {
            n as u32
        }
    }

    /// The ledger entry at `index`: a committed entry as stored, a pending
    /// event wrapped in a blank entry, or nothing beyond the end.
    pub fn get_block(&self, index: u32) -> (r: Result<Block, Error>)
        requires
            self.wf(),
        ensures
            index < self.log_view().len() ==> (r matches Ok(b) && b@ == self.log_view()[index as int]),
            self.log_view().len() <= index < self.total_len() ==> (r matches Ok(b) && b@.data
                == self.pending_view()[index - self.log_view().len()] && b@.certificate
                == Seq::<u8>::empty() && b@.tree == Seq::<u8>::empty() && b@.previous_hash
                == zero32()),
            index >= self.total_len() ==> r == Err::<Block, Error>(Error::NotFound),
    {
        let committed = self.log.len();
        if (index as usize) < committed {
            return Ok(clone_block(&self.log[index as usize]));
        }
        let off = index as usize - committed;
        if off < self.pending.len() {
            let b = Block {
                certificate: Vec::new(),
                tree: Vec::new(),
                data: clone_data(&self.pending[off]),
                previous_hash: zeros32(),
            };
            proof {
                assert(b@.certificate =~= Seq::<u8>::empty());
                assert(b@.tree =~= Seq::<u8>::empty());
            }
            return Ok(b);
        }
        Err(Error::NotFound)
    }

    /// The participants recorded in the event at `index`.
    pub fn get_jurors(&self, index: u32) -> (r: Result<Vec<Vec<u8>>, Error>)
        requires
            self.wf(),
        ensures
            index >= self.total_len() ==> r == Err::<Vec<Vec<u8>>, Error>(Error::NotFound),
            index < self.total_len() ==> (r matches Ok(v) && v@.map_values(|j: Vec<u8>| j@) == ({
                if index < self.log_view().len() {
                    self.log_view()[index as int].data.jurors
                } else {
                    self.pending_view()[index - self.log_view().len()].jurors
                }
            })),
    {
        match self.get_block(index) {
            Ok(b) => {
                proof {
                    assert(b.data@.jurors == b.data.jurors@.map_values(|j: Vec<u8>| j@));
                }
                Ok(b.data.jurors)
            },
            Err(e) => Err(e),
        }
    }

    /// How many participants the event at `index` names (clamped to the
    /// position type's range).
    pub fn get_size(&self, index: u32) -> (r: Result<u32, Error>)
        requires
            self.wf(),
        ensures
            index >= self.total_len() ==> r == Err::<u32, Error>(Error::NotFound),
            index < self.total_len() ==> ({
                let js = if index < self.log_view().len() {
                    self.log_view()[index as int].data.jurors
                } else {
                    self.pending_view()[index - self.log_view().len()].jurors
                };
                (js.len() <= u32::MAX ==> r == Ok::<u32, Error>(js.len() as u32)) && (js.len()
                    > u32::MAX ==> r == Ok::<u32, Error>(u32::MAX))
            }),
    {
        match self.get_jurors(index) {
            Ok(v) => {
                let n = v.len();
                if n > u32::MAX as usize {
                    Ok(u32::MAX)
                } else {
                    Ok(n as u32)
                }
            },
            Err(e) => Err(e),
        }
    }

    /// For each requested identity, its position in the pool at `index`.
    /// Only the last mention of a repeated identity is answered, as the
    /// answer slots are keyed by identity.
    pub fn find(&self, index: u32, jurors: Vec<Vec<u8>>) -> (r: Vec<Option<u32>>)
        requires
            self.wf(),
        ensures
            r@.len() == jurors@.len(),
            forall|t: int|
                #![trigger r@[t]]
                0 <= t < jurors@.len() ==> ({
                    let js = jurors@.map_values(|j: Vec<u8>| j@);
                    let pool = pool_of(self.entries(), index);
                    match r@[t] {
                        Option::Some(i) => (forall|u: int| t < u < js.len() ==> js[u] != js[t])
                            && 0 <= i < pool.len() && pool[i as int] == js[t],
                        Option::None => (exists|u: int| t < u < js.len() && js[u] == js[t]) || (
                        forall|i: int|
                            0 <= i < pool.len() && i <= u32::MAX ==> pool[i] != js[t]),
                    }
                }),
    {
        let pool = self.collect_pool(index);
        let ghost js = jurors@.map_values(|j: Vec<u8>| j@);
        let ghost pl = pool_of(self.entries(), index);
        let m = jurors.len();
        let pn = pool.len();
        let mut r: Vec<Option<u32>> = Vec::new();
        let mut t: usize = 0;
        while t < m
            invariant
                m == jurors@.len(),
                pn == pool@.len(),
                js == jurors@.map_values(|j: Vec<u8>| j@),
                pl == pool_of(self.entries(), index),
                pl.len() == pn,
                forall|j: int| 0 <= j < pn ==> pool@[j]@ == pl[j],
                0 <= t <= m,
                r@.len() == t,
                forall|q: int|
                    #![trigger r@[q]]
                    0 <= q < t ==> ({
                        match r@[q] {
                            Option::Some(i) => (forall|u: int| q < u < js.len() ==> js[u] != js[q])
                                && 0 <= i < pl.len() && pl[i as int] == js[q],
                            Option::None => (exists|u: int| q < u < js.len() && js[u] == js[q]) || (
                            forall|i: int| 0 <= i < pl.len() && i <= u32::MAX ==> pl[i] != js[q]),
                        }
                    }),
            decreases m - t,
        {
            // Is there a later mention of the same identity?
            let mut dup = false;
            let mut u: usize = t + 1;
            while u < m
                invariant
                    m == jurors@.len(),
                    js == jurors@.map_values(|j: Vec<u8>| j@),
                    t < m,
                    t + 1 <= u <= m,
                    dup ==> (exists|w: int| t < w < js.len() && js[w] == js[t as int]),
                    !dup ==> (forall|w: int| t < w < u ==> js[w] != js[t as int]),
                decreases m - u,
            {
                if bytes_eq(&jurors[u], &jurors[t]) {
                    proof {
                        assert(js[u as int] == js[t as int]);
                    }
                    dup = true;
                }
                u = u + 1;
            }
            if dup {
                r.push(Option::None);
            } else {
                // Scan the pool for the identity.
                let mut found: Option<u32> = Option::None;
                let mut i: usize = 0;
                while i < pn
                    invariant
                        pn == pool@.len(),
                        pl.len() == pn,
                        forall|j: int| 0 <= j < pn ==> pool@[j]@ == pl[j],
                        m == jurors@.len(),
                        js == jurors@.map_values(|j: Vec<u8>| j@),
                        t < m,
                        0 <= i <= pn,
                        match found {
                            Option::Some(x) => 0 <= x < pl.len() && pl[x as int] == js[t as int],
                            Option::None => forall|w: int|
                                0 <= w < i && w <= u32::MAX ==> pl[w] != js[t as int],
                        },
                    decreases pn - i,
                {
                    if matches!(found, Option::None) && bytes_eq(&pool[i], &jurors[t]) {
                        if i <= u32::MAX as usize {
                            found = Option::Some(i as u32);
                        }
                    }
                    i = i + 1;
                }
                r.push(found);
            }
            t = t + 1;
        }
        r
    }
}

} // verus!
// Seeded selection.
verus! {

/// The participants at the indices accepted within the first `n` draws, in
/// draw order; every accepted index is below the pool size by construction.
pub open spec fn jury_from(es: Entries, index: u32, seed: Seq<u8>, n: nat) -> Seq<Seq<u8>> {
    let pool = pool_of(es, index);
    accepted(seed, pool.len() as usize, n).map(|t: int, idx: usize| pool[idx as int])
}

/// `jurors` is the selection that a generator seeded with `seed` draws from
/// the pool at `index`: the participants at the accepted indices of some
/// draw run, in draw order.
pub open spec fn jury_of(
    es: Entries,
    index: u32,
    count: int,
    seed: Seq<u8>,
    jurors: Seq<Seq<u8>>,
) -> bool {
    let pool = pool_of(es, index);
    exists|n: nat|
        #![trigger accepted(seed, pool.len() as usize, n)]
        n <= DRAW_LIMIT && accepted(seed, pool.len() as usize, n).len() == count && jurors
            == jury_from(es, index, seed, n)
}

/// The selection recorded for an expansion: the tail that a run for
/// `prior + extra` picks beyond its first `prior` draws.
pub open spec fn expand_jury_of(
    es: Entries,
    index: u32,
    prior: int,
    extra: int,
    seed: Seq<u8>,
    jurors: Seq<Seq<u8>>,
) -> bool {
    exists|full: Seq<Seq<u8>>|
        #![trigger full.skip(prior)]
        jury_of(es, index, prior + extra, seed, full) && jurors == full.skip(prior)
}

impl State {
    /// Draws `count` pairwise-distinct participants from the pool at
    /// `index`, in draw order, with a generator seeded by `seed`. Fails
    /// exactly when the pool is too small (or the draw budget runs out).
    pub fn make_jury(&self, index: u32, count: usize, seed: &Vec<u8>) -> (r: Result<
        Vec<Vec<u8>>,
        Error,
    >)
        requires
            self.wf(),
            seed@.len() == 32,
        ensures
            ({
                let pool = pool_of(self.entries(), index);
                &&& (r is Ok <==> sampling_succeeds(seed@, pool.len() as usize, count as int))
                &&& (r matches Ok(v) ==> jury_of(
                    self.entries(),
                    index,
                    count as int,
                    seed@,
                    v@.map_values(|j: Vec<u8>| j@),
                ) && v@.len() == count && (forall|t: int|
                    0 <= t < count ==> pool.contains(#[trigger] v@[t]@)) && (forall|t1: int, t2: int|
                    0 <= t1 < t2 < count ==> v@[t1]@ != v@[t2]@))
                &&& (r is Err ==> r == Err::<Vec<Vec<u8>>, Error>(Error::Sampling))
            }),
    {
        let pool = self.collect_pool(index);
        let plen = pool.len();
        let ghost pl = pool_of(self.entries(), index);
        let mut rng = rng_from_seed(seed);
        let idxs = match sample(&mut rng, count, plen) {
            Ok(v) => v,
            Err(_) => {
                return Err(Error::Sampling);
            },
        };
        proof {
            let n = choose|n: nat|
                n <= DRAW_LIMIT && idxs@ == accepted(seed@, plen, n) && idxs@.len() == count;
            lemma_accepted_in_range(seed@, plen, n);
            lemma_pool_distinct(self.entries(), index);
        }
        let mut out: Vec<Vec<u8>> = Vec::new();
        let mut t: usize = 0;
        while t < count
            invariant
                pl == pool_of(self.entries(), index),
                plen == pool@.len(),
                pl.len() == plen,
                forall|j: int| 0 <= j < plen ==> pool@[j]@ == pl[j],
                idxs@.len() == count,
                forall|q: int| 0 <= q < count ==> #[trigger] idxs@[q] < plen,
                0 <= t <= count,
                out@.len() == t,
                forall|q: int| 0 <= q < t ==> #[trigger] out@[q]@ == pl[idxs@[q] as int],
            decreases count - t,
        {
            out.push(clone_bytes(&pool[idxs[t]]));
            t = t + 1;
        }
        proof {
            let n = choose|n: nat|
                n <= DRAW_LIMIT && idxs@ == accepted(seed@, plen, n) && idxs@.len() == count;
            let jview = out@.map_values(|j: Vec<u8>| j@);
            assert(accepted(seed@, pl.len() as usize, n) == idxs@);
            assert(jview.len() == count);
            assert(jview =~= jury_from(self.entries(), index, seed@, n));
            assert(jury_of(self.entries(), index, count as int, seed@, jview));
            lemma_accepted_in_range(seed@, plen, n);
            assert forall|t1: int, t2: int| 0 <= t1 < t2 < count implies out@[t1]@ != out@[t2]@ by {
                assert(idxs@[t1] != idxs@[t2]);
                lemma_pool_distinct(self.entries(), index);
            }
            assert forall|q: int| 0 <= q < count implies pl.contains(#[trigger] out@[q]@) by {
                assert(pl[idxs@[q] as int] == out@[q]@);
            }
        }
        Ok(out)
    }

    /// Records a selection of `count` participants from the pool as of
    /// `index`, drawn with the beacon-supplied 32-byte seed. The selection
    /// and the seed become a pending event at the returned position.
    pub fn select(
        &mut self,
        caller: &Vec<u8>,
        index: u32,
        count: u32,
        seed: Vec<u8>,
        memo: Vec<u8>,
    ) -> (r: Result<u32, Error>)
        requires
            old(self).wf(),
            old(self).total_len() < u32::MAX,
        ensures
            final(self).wf(),
            !old(self).authorized(caller@) ==> r == Err::<u32, Error>(Error::NotAuthorized)
                && *final(self) == *old(self),
            old(self).authorized(caller@) && seed@.len() != 32 ==> r == Err::<u32, Error>(
                Error::Beacon,
            ) && *final(self) == *old(self),
            old(self).authorized(caller@) && seed@.len() == 32 && !sampling_succeeds(
                seed@,
                pool_of(old(self).entries(), index).len() as usize,
                count as int,
            ) ==> r == Err::<u32, Error>(Error::Sampling) && *final(self) == *old(self),
            old(self).authorized(caller@) && seed@.len() == 32 && sampling_succeeds(
                seed@,
                pool_of(old(self).entries(), index).len() as usize,
                count as int,
            ) ==> r == Ok::<u32, Error>(old(self).total_len() as u32) && final(self).pending_view()
                == old(self).pending_view().push(final(self).pending_view().last()) && ({
                let d = final(self).pending_view().last();
                d.kind == Kind::Select && d.rand == Some(seed@) && d.jurors_index == 0 && d.memo
                    == memo@ && jury_of(old(self).entries(), index, count as int, seed@, d.jurors)
            }),
            final(self).log_view() == old(self).log_view(),
            final(self).entries() == old(self).entries(),
            final(self).auth_view() == old(self).auth_view(),
            final(self).genesis_hash() == old(self).genesis_hash(),
            final(self).id() == old(self).id(),
    {
        if !self.is_authorized(caller) {
            return Err(Error::NotAuthorized);
        }
        if seed.len() != 32 {
            return Err(Error::Beacon);
        }
        let jurors = match self.make_jury(index, count as usize, &seed) {
            Ok(v) => v,
            Err(_) => {
                return Err(Error::Sampling);
            },
        };
        let data = Data {
            kind: Kind::Select,
            jurors,
            rand: Some(clone_bytes(&seed)),
            jurors_index: 0,
            memo,
        };
        let position = self.length();
        self.push_pending(&data);
        Ok(position)
    }

    /// Enlarges the selection recorded at `index` by `count` fresh
    /// participants: the same seed is replayed for a larger draw and only
    /// the new tail is recorded, so the original selection is undisturbed.
    pub fn expand(&mut self, caller: &Vec<u8>, index: u32, count: u32, memo: Vec<u8>) -> (r: Result<
        u32,
        Error,
    >)
        requires
            old(self).wf(),
            old(self).total_len() < u32::MAX,
        ensures
            final(self).wf(),
            !old(self).authorized(caller@) ==> r == Err::<u32, Error>(Error::NotAuthorized)
                && *final(self) == *old(self),
            old(self).authorized(caller@) ==> ({
                let od = old(self).data_at(index);
                &&& (od is None ==> r == Err::<u32, Error>(Error::NotFound) && *final(self) == *old(self))
                &&& (od matches Some(d) ==> ({
                    let sd = d.rand;
                    &&& (!(sd matches Some(sv) && sv.len() == 32) ==> r == Err::<u32, Error>(
                        Error::NotFound,
                    ) && *final(self) == *old(self))
                    &&& ((sd matches Some(sv0) && sv0.len() == 32) ==> ({
                        let sv = sd->Some_0;
                        let prior = d.jurors.len() as int;
                        let pool = pool_of(old(self).entries(), index);
                        &&& (!sampling_succeeds(sv, pool.len() as usize, prior + count) ==> r
                            == Err::<u32, Error>(Error::Sampling) && *final(self) == *old(self))
                        &&& (sampling_succeeds(sv, pool.len() as usize, prior + count) ==> r
                            == Ok::<u32, Error>(old(self).total_len() as u32) && final(self).pending_view() == old(self).pending_view().push(
                            final(self).pending_view().last(),
                        ) && ({
                            let nd = final(self).pending_view().last();
                            nd.kind == Kind::Expand && nd.rand == Some(sv) && nd.jurors_index == 0
                                && nd.memo == memo@ && expand_jury_of(
                                old(self).entries(),
                                index,
                                prior,
                                count as int,
                                sv,
                                nd.jurors,
                            )
                        }))
                    }))
                }))
            }),
            final(self).log_view() == old(self).log_view(),
            final(self).entries() == old(self).entries(),
            final(self).auth_view() == old(self).auth_view(),
            final(self).genesis_hash() == old(self).genesis_hash(),
            final(self).id() == old(self).id(),
    {
        if !self.is_authorized(caller) {
            return Err(Error::NotAuthorized);
        }
        let block = match self.get_block(index) {
            Ok(b) => b,
            Err(_) => {
                return Err(Error::NotFound);
            },
        };
        let seed = match block.data.rand {
            Some(v) => v,
            None => {
                return Err(Error::NotFound);
            },
        };
        if seed.len() != 32 {
            return Err(Error::NotFound);
        }
        let prior = block.data.jurors.len();
        let total = match prior.checked_add(count as usize) {
            Some(t) => t,
            None => {
                let pool = self.collect_pool(index);
                let n = pool.len();
                proof {
                    assert(pool_of(self.entries(), index).len() == n);
                }
                return Err(Error::Sampling);
            },
        };
        let full = match self.make_jury(index, total, &seed) {
            Ok(v) => v,
            Err(_) => {
                return Err(Error::Sampling);
            },
        };
        let mut tail: Vec<Vec<u8>> = Vec::new();
        let mut t: usize = prior;
        while t < total
            invariant
                full@.len() == total,
                prior <= t <= total,
                tail@.len() == t - prior,
                forall|q: int| 0 <= q < t - prior ==> #[trigger] tail@[q]@ == full@[prior + q]@,
            decreases total - t,
        {
            tail.push(clone_bytes(&full[t]));
            t = t + 1;
        }
        proof {
            let fview = full@.map_values(|j: Vec<u8>| j@);
            assert(tail@.map_values(|j: Vec<u8>| j@) =~= fview.skip(prior as int));
        }
        let data = Data {
            kind: Kind::Expand,
            jurors: tail,
            rand: Some(seed),
            jurors_index: 0,
            memo,
        };
        let position = self.length();
        self.push_pending(&data);
        Ok(position)
    }

    /// The event recorded at a position, committed or still pending.
    pub open spec fn data_at(self, index: u32) -> Option<DataModel> {
        if index < self.log_view().len() {
            Option::Some(self.log_view()[index as int].data)
        } else if index < self.total_len() {
            Option::Some(self.pending_view()[index - self.log_view().len()])
        } else {
            Option::None
        }
    }
}

} // verus!
// Certify-then-commit.
verus! {

impl State {
    /// Finalizes the pending batch. The supplied certificate must embed,
    /// for this service, exactly the root of the current batch; then every
    /// pending event becomes a ledger entry carrying the certificate, the
    /// serialized witness and the pre-batch tail hash, and the batch is
    /// cleared. A stale or foreign certificate changes nothing. All
    /// entries land or none do.
    #[verifier::rlimit(100)]
    #[verifier::spinoff_prover]
    pub fn commit(&mut self, caller: &Vec<u8>, certificate: Vec<u8>) -> (r: Result<
        Option<u32>,
        Error,
    >)
        requires
            old(self).wf(),
        ensures
            final(self).wf(),
            !old(self).authorized(caller@) ==> r == Err::<Option<u32>, Error>(Error::NotAuthorized)
                && *final(self) == *old(self),
            old(self).authorized(caller@) && old(self).pending_view().len() == 0 ==> r == Ok::<
                Option<u32>,
                Error,
            >(None) && *final(self) == *old(self),
            old(self).authorized(caller@) && old(self).pending_view().len() > 0 && embedded_value(
                certificate@,
                old(self).id(),
            ) != Some(old(self).certified_value()) ==> r == Err::<Option<u32>, Error>(
                Error::CertificateMismatch,
            ) && *final(self) == *old(self),
            old(self).authorized(caller@) && old(self).pending_view().len() > 0 && embedded_value(
                certificate@,
                old(self).id(),
            ) == Some(old(self).certified_value()) ==> ({
                &&& r == Ok::<Option<u32>, Error>(Some(old(self).total_len() as u32))
                &&& final(self).pending_view().len() == 0
                &&& final(self).log_view().len() == old(self).total_len()
                &&& final(self).log_view() == old(self).log_view() + Seq::new(
                    old(self).pending_view().len(),
                    |i: int|
                        BlockModel {
                            certificate: certificate@,
                            tree: witness_of(jury_label(), old(self).batch_inserts()),
                            data: old(self).pending_view()[i],
                            previous_hash: old(self).tail_hash(),
                        },
                )
            }),
            final(self).entries() == old(self).entries(),
            final(self).auth_view() == old(self).auth_view(),
            final(self).genesis_hash() == old(self).genesis_hash(),
            final(self).id() == old(self).id(),
            final(self).total_len() == old(self).total_len(),
    {
        if !self.is_authorized(caller) {
            return Err(Error::NotAuthorized);
        }
        if self.pending.len() == 0 {
            return Ok(None);
        }
        let previous_hash = self.get_previous_hash();
        let tree = self.build_tree(&previous_hash);
        let root = block_tree_root(&tree);
        let label = Self::jury_label_bytes();
        let certified = labeled_hash(&label, &root);
        let certified_vec = arr32_to_vec(&certified);
        let embedded = match crate::cbor::extract_embedded(&certificate, &self.self_id) {
            Some(v) => v,
            None => {
                return Err(Error::CertificateMismatch);
            },
        };
        if !bytes_eq(&embedded, &certified_vec) {
            return Err(Error::CertificateMismatch);
        }
        let witness = block_tree_witness(&tree, &label);
        let prev_vec = arr32_to_vec(&previous_hash);
        let n = self.pending.len();
        let ghost pre_log = self.log_view();
        let ghost pre_pending = self.pending_view();
        let ghost pre = *self;
        let ghost target = Seq::new(
            n as nat,
            |j: int|
                BlockModel {
                    certificate: certificate@,
                    tree: witness_of(jury_label(), pre.batch_inserts()),
                    data: pre_pending[j],
                    previous_hash: pre.tail_hash(),
                },
        );
        let mut i: usize = 0;
        while i < n
            invariant
                n == self.pending@.len(),
                self.pending == pre.pending,
                self.auth == pre.auth,
                self.genesis == pre.genesis,
                self.self_id == pre.self_id,
                self.jurors == pre.jurors,
                pre_log == pre.log_view(),
                pre_pending == pre.pending_view(),
                target.len() == n,
                forall|j: int|
                    0 <= j < n ==> (#[trigger] target[j]) == (BlockModel {
                        certificate: certificate@,
                        tree: witness_of(jury_label(), pre.batch_inserts()),
                        data: pre_pending[j],
                        previous_hash: pre.tail_hash(),
                    }),
                witness@ == witness_of(jury_label(), pre.batch_inserts()),
                prev_vec@ == pre.tail_hash(),
                0 <= i <= n,
                self.log_view() == pre_log + target.take(i as int),
            decreases n - i,
        {
            let block = Block {
                certificate: clone_bytes(&certificate),
                tree: clone_bytes(&witness),
                data: clone_data(&self.pending[i]),
                previous_hash: clone_bytes(&prev_vec),
            };
            proof {
                assert(block@ =~= target[i as int]);
                assert(pre_log + target.take(i + 1) =~= (pre_log + target.take(i as int)).push(
                    target[i as int],
                ));
            }
            self.log.push(block);
            proof {
                assert(self.log_view() =~= (pre_log + target.take(i as int)).push(block@));
            }
            i = i + 1;
        }
        proof {
            assert(target.take(n as int) =~= target);
        }
        self.pending = Vec::new();
        let new_len = self.length();
        proof {
            assert(self.pending_view() =~= Seq::<DataModel>::empty());
            let post = self.log_view();
            assert(chained(post, self.genesis_hash())) by {
                assert forall|k: int|
                    1 <= k < post.len() implies post[k].previous_hash == post[k - 1].previous_hash
                    || post[k].previous_hash == sha256_of(#[trigger] enc_block(post[k - 1])) by {
                    if k < pre_log.len() {
                    } else if k == pre_log.len() {
                        if pre_log.len() > 0 {
                            assert(post[k].previous_hash == pre.tail_hash());
                            assert(post[k - 1] == pre_log[k - 1]);
                            assert(pre.tail_hash() == sha256_of(enc_block(pre_log.last())));
                        }
                    } else {
                        assert(post[k].previous_hash == pre.tail_hash());
                        assert(post[k - 1].previous_hash == pre.tail_hash());
                    }
                }
                if post.len() > 0 && pre_log.len() == 0 {
                    assert(post[0].previous_hash == pre.tail_hash());
                }
            }
        }
        Ok(Some(new_len))
    }
}

} // verus!
// Membership changes.
verus! {

/// Whether some listed participant's history is full for an addition at
/// this point: inactive with no room for another transition.
pub open spec fn add_refused_any(es: Entries, js: Seq<Seq<u8>>) -> bool {
    exists|t: int| 0 <= t < js.len() && add_refused(lookup(es, #[trigger] js[t]))
}

/// The set of participants active as of position `p`.
pub open spec fn active_as_of(es: Entries, p: u32) -> Set<Seq<u8>> {
    Set::new(
        |k: Seq<u8>|
            match lookup(es, k) {
                Option::Some(v) => hist_active_at(hist_of_bytes(v), p),
                Option::None => false,
            },
    )
}

impl State {
    /// Records an addition of the listed participants at the next position:
    /// unseen ones get fresh histories, inactive ones are re-activated,
    /// active ones are untouched. If any history has no room left, nothing
    /// at all changes.
    #[verifier::rlimit(100)]
    #[verifier::spinoff_prover]
    pub fn add(&mut self, caller: &Vec<u8>, new_jurors: Vec<Vec<u8>>, memo: Vec<u8>) -> (r: Result<
        u32,
        Error,
    >)
        requires
            old(self).wf(),
            old(self).total_len() < u32::MAX,
        ensures
            final(self).wf(),
            !old(self).authorized(caller@) ==> r == Err::<u32, Error>(Error::NotAuthorized)
                && *final(self) == *old(self),
            old(self).authorized(caller@) && add_refused_any(
                old(self).entries(),
                new_jurors@.map_values(|j: Vec<u8>| j@),
            ) ==> r == Err::<u32, Error>(Error::Capacity) && *final(self) == *old(self),
            old(self).authorized(caller@) && !add_refused_any(
                old(self).entries(),
                new_jurors@.map_values(|j: Vec<u8>| j@),
            ) ==> ({
                let js = new_jurors@.map_values(|j: Vec<u8>| j@);
                let at = old(self).total_len() as u32;
                &&& r == Ok::<u32, Error>(at)
                &&& forall|k: Seq<u8>|
                    #![trigger lookup(final(self).entries(), k)]
                    lookup(final(self).entries(), k) == add_result(
                        lookup(old(self).entries(), k),
                        js.contains(k),
                        at,
                    )
                &&& final(self).pending_view() == old(self).pending_view().push(
                    DataModel {
                        kind: Kind::Add,
                        jurors: js,
                        rand: Option::None,
                        jurors_index: 0,
                        memo: memo@,
                    },
                )
            }),
            final(self).log_view() == old(self).log_view(),
            final(self).auth_view() == old(self).auth_view(),
            final(self).genesis_hash() == old(self).genesis_hash(),
            final(self).id() == old(self).id(),
    {
        if !self.is_authorized(caller) {
            return Err(Error::NotAuthorized);
        }
        let index = self.length();
        let ghost orig = self.entries();
        let ghost js = new_jurors@.map_values(|j: Vec<u8>| j@);
        let mut nt = pool_tree_clone(&self.jurors);
        let n = new_jurors.len();
        let mut i: usize = 0;
        while i < n
            invariant
                *self == *old(self),
                old(self).wf(),
                old(self).authorized(caller@),
                self.wf(),
                index as int == self.total_len(),
                self.total_len() < u32::MAX,
                orig == self.entries(),
                n == new_jurors@.len(),
                js == new_jurors@.map_values(|j: Vec<u8>| j@),
                0 <= i <= n,
                wf_entries(pool_entries(nt)),
                forall|q: int|
                    0 <= q < pool_entries(nt).len() ==> (#[trigger] pool_entries(nt)[q].1).len() % 4
                        == 0,
                forall|q: int, w: int|
                    0 <= q < pool_entries(nt).len() && 0 <= w < hist_of_bytes(
                        pool_entries(nt)[q].1,
                    ).len() ==> #[trigger] hist_of_bytes(pool_entries(nt)[q].1)[w] <= index,
                forall|k: Seq<u8>|
                    #![trigger lookup(pool_entries(nt), k)]
                    lookup(pool_entries(nt), k) == add_result(
                        lookup(orig, k),
                        js.take(i as int).contains(k),
                        index,
                    ),
                forall|t: int| 0 <= t < i ==> !add_refused(lookup(orig, #[trigger] js[t])),
            decreases n - i,
        {
            let j = &new_jurors[i];
            proof {
                assert(js[i as int] == j@);
                assert(js.take(i + 1) =~= js.take(i as int).push(j@));
                assert forall|k: Seq<u8>|
                    #[trigger] js.take(i + 1).contains(k) <==> js.take(i as int).contains(k) || k
                        == j@ by {
                    if js.take(i + 1).contains(k) {
                        let w = choose|w: int| 0 <= w < i + 1 && #[trigger] js.take(i + 1)[w] == k;
                        if w < i {
                            assert(js.take(i as int)[w] == k);
                        }
                    }
                    if js.take(i as int).contains(k) {
                        let w = choose|w: int| 0 <= w < i && #[trigger] js.take(i as int)[w] == k;
                        assert(js.take(i + 1)[w] == k);
                    }
                    if k == j@ {
                        assert(js.take(i + 1)[i as int] == k);
                    }
                }
            }
            let cur = pool_tree_get(&nt, j);
            let ghost pre_entries = pool_entries(nt);
            match cur {
                Option::Some(v) => {
                    let h = to_history(&v);
                    if h.len() % 2 == 0 {
                        if h.len() >= MAX_HISTORY {
                            proof {
                                assert(lookup(pre_entries, j@) == Some(v@));
                                if js.take(i as int).contains(j@) {
                                    // A listed juror already processed ends
                                    // up active, so its history is odd.
                                    lemma_add_upd_odd(lookup(orig, j@), index);
                                    assert(false);
                                }
                                assert(lookup(orig, j@) == Some(v@));
                                assert(add_refused(lookup(orig, js[i as int])));
                                assert(add_refused_any(orig, js));
                            }
                            return Err(Error::Capacity);
                        }
                        let mut h2 = h;
                        h2.push(index);
                        let nv = from_history(&h2);
                        proof {
                            assert(h2@ == hist_of_bytes(v@).push(index));
                            assert(nv@ == add_upd(Some(v@), index));
                            lemma_put_wf(pre_entries, j@, nv@);
                            lemma_lookup_put_same(pre_entries, j@, nv@);
                            lemma_bytes_of_hist_len(h2@);
                            lemma_hist_roundtrip(h2@);
                            lemma_lookup_some_index(pre_entries, j@);
                            let q = choose|q: int|
                                0 <= q < pre_entries.len() && pre_entries[q].0 == j@
                                    && #[trigger] pre_entries[q].1 == lookup(
                                    pre_entries,
                                    j@,
                                )->Some_0;
                            assert(pre_entries[q].1 == v@);
                            assert(forall|w: int|
                                0 <= w < hist_of_bytes(v@).len() ==> #[trigger] hist_of_bytes(
                                    v@,
                                )[w] <= index);
                            assert(forall|w: int|
                                0 <= w < hist_of_bytes(nv@).len() ==> #[trigger] hist_of_bytes(
                                    nv@,
                                )[w] <= index);
                        }
                        pool_tree_insert(&mut nt, clone_bytes(j), nv);
                        proof {
                            lemma_put_entry_facts(pre_entries, j@, add_upd(Some(v@), index), index);
                            assert forall|k: Seq<u8>|
                                #[trigger] lookup(pool_entries(nt), k) == add_result(
                                    lookup(orig, k),
                                    js.take(i + 1).contains(k),
                                    index,
                                ) by {
                                if k == j@ {
                                    assert(lookup(pool_entries(nt), k) == Some(
                                        add_upd(Some(v@), index),
                                    ));
                                    assert(lookup(orig, k) == add_result(
                                        lookup(orig, k),
                                        js.take(i as int).contains(k),
                                        index,
                                    ) || js.take(i as int).contains(k));
                                    if js.take(i as int).contains(k) {
                                        assert(lookup(pre_entries, k) == Some(
                                            add_upd(lookup(orig, k), index),
                                        ));
                                        assert(hist_of_bytes(v@).len() % 2 == 0);
                                        assert(false) by {
                                            lemma_add_upd_odd(lookup(orig, k), index);
                                        }
                                    } else {
                                        assert(lookup(orig, k) == Some(v@));
                                    }
                                } else {
                                    lemma_lookup_put_other(pre_entries, j@, add_upd(Some(v@), index), k);
                                }
                            }
                        }
                    } else {
                        // Already active: nothing to record.
                        proof {
                            assert forall|k: Seq<u8>|
                                #[trigger] lookup(pool_entries(nt), k) == add_result(
                                    lookup(orig, k),
                                    js.take(i + 1).contains(k),
                                    index,
                                ) by {
                                if k == j@ {
                                    if js.take(i as int).contains(k) {
                                    } else {
                                        assert(lookup(orig, k) == Some(v@));
                                        assert(add_upd(Some(v@), index) == v@);
                                    }
                                }
                            }
                            assert(!add_refused(lookup(orig, js[i as int]))) by {
                                if !js.take(i as int).contains(j@) {
                                    assert(lookup(orig, j@) == Some(v@));
                                }
                            }
                        }
                    }
                },
                Option::None => {
                    let mut h2: Vec<u32> = Vec::new();
                    h2.push(index);
                    let nv = from_history(&h2);
                    proof {
                        assert(h2@ =~= seq![index]);
                        assert(nv@ == add_upd(None, index));
                        lemma_put_wf(pre_entries, j@, nv@);
                        lemma_lookup_put_same(pre_entries, j@, nv@);
                        lemma_bytes_of_hist_len(h2@);
                        lemma_hist_roundtrip(h2@);
                        assert(js.take(i as int).contains(j@) ==> lookup(pre_entries, j@) is Some);
                        assert(forall|w: int|
                            0 <= w < hist_of_bytes(nv@).len() ==> #[trigger] hist_of_bytes(
                                nv@,
                            )[w] <= index);
                    }
                    pool_tree_insert(&mut nt, clone_bytes(j), nv);
                    proof {
                        lemma_put_entry_facts(pre_entries, j@, add_upd(None, index), index);
                        assert forall|k: Seq<u8>|
                            #[trigger] lookup(pool_entries(nt), k) == add_result(
                                lookup(orig, k),
                                js.take(i + 1).contains(k),
                                index,
                            ) by {
                            if k == j@ {
                                assert(!js.take(i as int).contains(k));
                                assert(lookup(orig, k) is None);
                            } else {
                                lemma_lookup_put_other(pre_entries, j@, add_upd(None, index), k);
                            }
                        }
                    }
                },
            }
            i = i + 1;
        }
        proof {
            assert(js.take(n as int) =~= js);
        }
        let data = Data {
            kind: Kind::Add,
            jurors: new_jurors,
            rand: Option::None,
            jurors_index: 0,
            memo,
        };
        self.push_pending(&data);
        self.jurors = nt;
        proof {
            assert(self.pending_view().last() =~= (DataModel {
                kind: Kind::Add,
                jurors: js,
                rand: Option::None,
                jurors_index: 0,
                memo: data@.memo,
            }));
            assert(self.pending_view() =~= old(self).pending_view().push(
                self.pending_view().last(),
            ));
            assert(self.wf()) by {
                assert(self.total_len() == index + 1);
                assert(forall|q: int, w: int|
                    0 <= q < self.entries().len() && 0 <= w < hist_of_bytes(
                        self.entries()[q].1,
                    ).len() ==> #[trigger] hist_of_bytes(self.entries()[q].1)[w] <= index);
            }
        }
        Ok(index)
    }
}

/// An addition's update always leaves an odd-length history: the juror is
/// active afterwards.
proof fn lemma_add_upd_odd(v: Option<Seq<u8>>, at: u32)
    ensures
        hist_of_bytes(add_upd(v, at)).len() % 2 == 1 || (v matches Some(b) && hist_of_bytes(
            b,
        ).len() % 2 == 1 && add_upd(v, at) == b),
{
    match v {
        Option::None => {
            lemma_bytes_of_hist_len(seq![at]);
            lemma_hist_roundtrip(seq![at]);
        },
        Option::Some(b) => {
            let h = hist_of_bytes(b);
            if h.len() % 2 == 0 {
                lemma_bytes_of_hist_len(h.push(at));
                lemma_hist_roundtrip(h.push(at));
            }
        },
    }
}

/// After a put of a well-formed multiple-of-four value whose history stays
/// below the bound, the well-formedness facts carry over entrywise.
proof fn lemma_put_entry_facts(es: Entries, k: Seq<u8>, v: Seq<u8>, at: u32)
    requires
        wf_entries(es),
        forall|q: int| 0 <= q < es.len() ==> (#[trigger] es[q].1).len() % 4 == 0,
        forall|q: int, w: int|
            0 <= q < es.len() && 0 <= w < hist_of_bytes(es[q].1).len() ==> #[trigger] hist_of_bytes(
                es[q].1,
            )[w] <= at,
        v.len() % 4 == 0,
        forall|w: int| 0 <= w < hist_of_bytes(v).len() ==> #[trigger] hist_of_bytes(v)[w] <= at,
    ensures
        wf_entries(put(es, k, v)),
        forall|q: int| 0 <= q < put(es, k, v).len() ==> (#[trigger] put(es, k, v)[q].1).len() % 4
            == 0,
        forall|q: int, w: int|
            0 <= q < put(es, k, v).len() && 0 <= w < hist_of_bytes(put(es, k, v)[q].1).len()
                ==> #[trigger] hist_of_bytes(put(es, k, v)[q].1)[w] <= at,
    decreases es.len(),
{
    lemma_put_wf(es, k, v);
    if es.len() == 0 {
    } else if lex_lt(k, es[0].0) {
    } else if k == es[0].0 {
        let r = seq![(k, v)] + es.skip(1);
        assert(forall|q: int| 1 <= q < r.len() ==> r[q] == es[q]);
    } else {
        lemma_wf_skip(es);
        assert(forall|q: int| 0 <= q < es.skip(1).len() ==> es.skip(1)[q] == es[q + 1]);
        lemma_put_entry_facts(es.skip(1), k, v, at);
        let r = seq![es[0]] + put(es.skip(1), k, v);
        assert(forall|q: int| 1 <= q < r.len() ==> r[q] == put(es.skip(1), k, v)[q - 1]);
    }
}

} // verus!
verus! {

impl State {
    /// Records a removal of the listed participants at the next position:
    /// active ones are deactivated, unseen or already inactive ones are
    /// silently left alone.
    #[verifier::rlimit(100)]
    #[verifier::spinoff_prover]
    pub fn remove(&mut self, caller: &Vec<u8>, remove_jurors: Vec<Vec<u8>>, memo: Vec<u8>) -> (r:
        Result<u32, Error>)
        requires
            old(self).wf(),
            old(self).total_len() < u32::MAX,
        ensures
            final(self).wf(),
            !old(self).authorized(caller@) ==> r == Err::<u32, Error>(Error::NotAuthorized)
                && *final(self) == *old(self),
            old(self).authorized(caller@) ==> ({
                let js = remove_jurors@.map_values(|j: Vec<u8>| j@);
                let at = old(self).total_len() as u32;
                &&& r == Ok::<u32, Error>(at)
                &&& forall|k: Seq<u8>|
                    #![trigger lookup(final(self).entries(), k)]
                    lookup(final(self).entries(), k) == remove_result(
                        lookup(old(self).entries(), k),
                        js.contains(k),
                        at,
                    )
                &&& final(self).pending_view() == old(self).pending_view().push(
                    DataModel {
                        kind: Kind::Remove,
                        jurors: js,
                        rand: Option::None,
                        jurors_index: 0,
                        memo: memo@,
                    },
                )
            }),
            final(self).log_view() == old(self).log_view(),
            final(self).auth_view() == old(self).auth_view(),
            final(self).genesis_hash() == old(self).genesis_hash(),
            final(self).id() == old(self).id(),
    {
        if !self.is_authorized(caller) {
            return Err(Error::NotAuthorized);
        }
        let index = self.length();
        let ghost orig = self.entries();
        let ghost js = remove_jurors@.map_values(|j: Vec<u8>| j@);
        let mut nt = pool_tree_clone(&self.jurors);
        let n = remove_jurors.len();
        let mut i: usize = 0;
        while i < n
            invariant
                *self == *old(self),
                old(self).wf(),
                old(self).authorized(caller@),
                self.wf(),
                index as int == self.total_len(),
                self.total_len() < u32::MAX,
                orig == self.entries(),
                n == remove_jurors@.len(),
                js == remove_jurors@.map_values(|j: Vec<u8>| j@),
                0 <= i <= n,
                wf_entries(pool_entries(nt)),
                forall|q: int|
                    0 <= q < pool_entries(nt).len() ==> (#[trigger] pool_entries(nt)[q].1).len() % 4
                        == 0,
                forall|q: int, w: int|
                    0 <= q < pool_entries(nt).len() && 0 <= w < hist_of_bytes(
                        pool_entries(nt)[q].1,
                    ).len() ==> #[trigger] hist_of_bytes(pool_entries(nt)[q].1)[w] <= index,
                forall|k: Seq<u8>|
                    #![trigger lookup(pool_entries(nt), k)]
                    lookup(pool_entries(nt), k) == remove_result(
                        lookup(orig, k),
                        js.take(i as int).contains(k),
                        index,
                    ),
            decreases n - i,
        {
            let j = &remove_jurors[i];
            proof {
                assert(js[i as int] == j@);
                assert(js.take(i + 1) =~= js.take(i as int).push(j@));
                assert forall|k: Seq<u8>|
                    #[trigger] js.take(i + 1).contains(k) <==> js.take(i as int).contains(k) || k
                        == j@ by {
                    if js.take(i + 1).contains(k) {
                        let w = choose|w: int| 0 <= w < i + 1 && #[trigger] js.take(i + 1)[w] == k;
                        if w < i {
                            assert(js.take(i as int)[w] == k);
                        }
                    }
                    if js.take(i as int).contains(k) {
                        let w = choose|w: int| 0 <= w < i && #[trigger] js.take(i as int)[w] == k;
                        assert(js.take(i + 1)[w] == k);
                    }
                    if k == j@ {
                        assert(js.take(i + 1)[i as int] == k);
                    }
                }
            }
            let cur = pool_tree_get(&nt, j);
            let ghost pre_entries = pool_entries(nt);
            match cur {
                Option::Some(v) => {
                    let h = to_history(&v);
                    if h.len() % 2 == 1 {
                        let mut h2 = h;
                        h2.push(index);
                        let nv = from_history(&h2);
                        proof {
                            assert(h2@ == hist_of_bytes(v@).push(index));
                            assert(remove_upd(Some(v@), index) == Some(nv@));
                            lemma_put_wf(pre_entries, j@, nv@);
                            lemma_lookup_put_same(pre_entries, j@, nv@);
                            lemma_bytes_of_hist_len(h2@);
                            lemma_hist_roundtrip(h2@);
                            lemma_lookup_some_index(pre_entries, j@);
                            let q = choose|q: int|
                                0 <= q < pre_entries.len() && pre_entries[q].0 == j@
                                    && #[trigger] pre_entries[q].1 == lookup(
                                    pre_entries,
                                    j@,
                                )->Some_0;
                            assert(pre_entries[q].1 == v@);
                            assert(forall|w: int|
                                0 <= w < hist_of_bytes(nv@).len() ==> #[trigger] hist_of_bytes(
                                    nv@,
                                )[w] <= index);
                        }
                        pool_tree_insert(&mut nt, clone_bytes(j), nv);
                        proof {
                            lemma_put_entry_facts(pre_entries, j@, nv@, index);
                            assert forall|k: Seq<u8>|
                                #[trigger] lookup(pool_entries(nt), k) == remove_result(
                                    lookup(orig, k),
                                    js.take(i + 1).contains(k),
                                    index,
                                ) by {
                                if k == j@ {
                                    if js.take(i as int).contains(k) {
                                        // Already processed, so already
                                        // inactive: an odd history cannot
                                        // come from a removal update.
                                        lemma_remove_upd_even(lookup(orig, k), index);
                                        assert(false);
                                    } else {
                                        assert(lookup(orig, k) == Some(v@));
                                    }
                                } else {
                                    lemma_lookup_put_other(pre_entries, j@, nv@, k);
                                }
                            }
                        }
                    } else {
                        proof {
                            assert forall|k: Seq<u8>|
                                #[trigger] lookup(pool_entries(nt), k) == remove_result(
                                    lookup(orig, k),
                                    js.take(i + 1).contains(k),
                                    index,
                                ) by {
                                if k == j@ {
                                    if js.take(i as int).contains(k) {
                                    } else {
                                        assert(lookup(orig, k) == Some(v@));
                                        assert(remove_upd(Some(v@), index) == Some(v@));
                                    }
                                }
                            }
                        }
                    }
                },
                Option::None => {
                    proof {
                        assert forall|k: Seq<u8>|
                            #[trigger] lookup(pool_entries(nt), k) == remove_result(
                                lookup(orig, k),
                                js.take(i + 1).contains(k),
                                index,
                            ) by {
                            if k == j@ {
                                if js.take(i as int).contains(k) {
                                    assert(lookup(pool_entries(nt), k) == remove_result(
                                        lookup(orig, k),
                                        true,
                                        index,
                                    ));
                                } else {
                                    assert(lookup(orig, k) is None);
                                }
                            }
                        }
                    }
                },
            }
            i = i + 1;
        }
        proof {
            assert(js.take(n as int) =~= js);
        }
        let data = Data {
            kind: Kind::Remove,
            jurors: remove_jurors,
            rand: Option::None,
            jurors_index: 0,
            memo,
        };
        self.push_pending(&data);
        self.jurors = nt;
        proof {
            assert(self.pending_view().last() =~= (DataModel {
                kind: Kind::Remove,
                jurors: js,
                rand: Option::None,
                jurors_index: 0,
                memo: data@.memo,
            }));
            assert(self.pending_view() =~= old(self).pending_view().push(
                self.pending_view().last(),
            ));
            assert(self.wf()) by {
                assert(self.total_len() == index + 1);
                assert(forall|q: int, w: int|
                    0 <= q < self.entries().len() && 0 <= w < hist_of_bytes(
                        self.entries()[q].1,
                    ).len() ==> #[trigger] hist_of_bytes(self.entries()[q].1)[w] <= index);
            }
        }
        Ok(index)
    }
}

/// A removal's update always leaves an even-length history, or the value
/// untouched and even: the juror is inactive afterwards.
proof fn lemma_remove_upd_even(v: Option<Seq<u8>>, at: u32)
    ensures
        remove_upd(v, at) matches Some(b) ==> hist_of_bytes(b).len() % 2 == 0,
        remove_upd(v, at) is None ==> v is None,
{
    match v {
        Option::None => {
        },
        Option::Some(b) => {
            let h = hist_of_bytes(b);
            if h.len() % 2 == 1 {
                lemma_bytes_of_hist_len(h.push(at));
                lemma_hist_roundtrip(h.push(at));
            }
        },
    }
}

/// Additions recorded at a later position never change who was active at an
/// earlier one.
pub proof fn lemma_active_stable_add(
    es1: Entries,
    es2: Entries,
    js: Seq<Seq<u8>>,
    at: u32,
    p: u32,
)
    requires
        p < at,
        forall|k: Seq<u8>|
            #![trigger lookup(es2, k)]
            lookup(es2, k) == add_result(lookup(es1, k), js.contains(k), at),
        forall|k: Seq<u8>, w: int|
            lookup(es1, k) is Some && 0 <= w < hist_of_bytes(lookup(es1, k)->Some_0).len()
                ==> #[trigger] hist_of_bytes(lookup(es1, k)->Some_0)[w] <= at,
    ensures
        active_as_of(es2, p) == active_as_of(es1, p),
{
    assert forall|k: Seq<u8>| active_as_of(es2, p).contains(k) == active_as_of(es1, p).contains(
        k,
    ) by {
        if js.contains(k) {
            match lookup(es1, k) {
                Option::None => {
                    lemma_bytes_of_hist_len(seq![at]);
                    lemma_hist_roundtrip(seq![at]);
                    assert(hist_of_bytes(add_upd(None, at)) =~= seq![at]);
                    assert(!hist_active_at(seq![at], p)) by {
                        assert(forall|w: int| !crate::history::span_covers(seq![at], w, p));
                    }
                },
                Option::Some(b) => {
                    let h = hist_of_bytes(b);
                    if h.len() % 2 == 0 {
                        lemma_hist_roundtrip(h.push(at));
                        assert(forall|w: int| 0 <= w < h.len() ==> h[w] <= at);
                        lemma_active_stable_under_append(h, at, p);
                    }
                },
            }
        }
    }
    assert(active_as_of(es2, p) =~= active_as_of(es1, p));
}

/// Removals recorded at a later position never change who was active at an
/// earlier one.
pub proof fn lemma_active_stable_remove(
    es1: Entries,
    es2: Entries,
    js: Seq<Seq<u8>>,
    at: u32,
    p: u32,
)
    requires
        p < at,
        forall|k: Seq<u8>|
            #![trigger lookup(es2, k)]
            lookup(es2, k) == remove_result(lookup(es1, k), js.contains(k), at),
        forall|k: Seq<u8>, w: int|
            lookup(es1, k) is Some && 0 <= w < hist_of_bytes(lookup(es1, k)->Some_0).len()
                ==> #[trigger] hist_of_bytes(lookup(es1, k)->Some_0)[w] <= at,
    ensures
        active_as_of(es2, p) == active_as_of(es1, p),
{
    assert forall|k: Seq<u8>| active_as_of(es2, p).contains(k) == active_as_of(es1, p).contains(
        k,
    ) by {
        if js.contains(k) {
            match lookup(es1, k) {
                Option::None => {
                },
                Option::Some(b) => {
                    let h = hist_of_bytes(b);
                    if h.len() % 2 == 1 {
                        lemma_hist_roundtrip(h.push(at));
                        assert(forall|w: int| 0 <= w < h.len() ==> h[w] <= at);
                        lemma_active_stable_under_append(h, at, p);
                    }
                },
            }
        }
    }
    assert(active_as_of(es2, p) =~= active_as_of(es1, p));
}

} // verus!
// The standing laws, stated over the models the contracts use.
verus! {

/// Prefix stability of selection: a selection of `k1` participants and one
/// of `k2 >= k1` from the same pool and seed agree on the first `k1`;
/// enlarging a selection appends, it never reshuffles.
pub proof fn lemma_jury_prefix_stable(
    es: Entries,
    index: u32,
    k1: int,
    k2: int,
    seed: Seq<u8>,
    j1: Seq<Seq<u8>>,
    j2: Seq<Seq<u8>>,
)
    requires
        0 <= k1 <= k2,
        jury_of(es, index, k1, seed, j1),
        jury_of(es, index, k2, seed, j2),
    ensures
        j1 == j2.take(k1),
{
    let pool = pool_of(es, index);
    let bound = pool.len() as usize;
    let n1 = choose|n: nat|
        #![trigger accepted(seed, bound, n)]
        n <= DRAW_LIMIT && accepted(seed, bound, n).len() == k1 && j1 == jury_from(
            es,
            index,
            seed,
            n,
        );
    let n2 = choose|n: nat|
        #![trigger accepted(seed, bound, n)]
        n <= DRAW_LIMIT && accepted(seed, bound, n).len() == k2 && j2 == jury_from(
            es,
            index,
            seed,
            n,
        );
    crate::rng::lemma_sample_prefix_stable(seed, bound, n1, n2);
    let a1 = accepted(seed, bound, n1);
    let a2 = accepted(seed, bound, n2);
    assert(a1 == a2.take(k1));
    assert forall|t: int| 0 <= t < k1 implies j1[t] == j2.take(k1)[t] by {
        assert(a1[t] == a2[t]);
        assert(j1[t] == pool[a1[t] as int]);
        assert(j2[t] == pool[a2[t] as int]);
    }
    assert(j1 =~= j2.take(k1));
}

/// Hash-chain integrity: in every well-formed state, each committed entry
/// carries its batch's anchoring tail hash, and each batch anchors in the
/// hash of the entry before it (the genesis hash for the first).
pub proof fn lemma_hash_chain(s: State)
    requires
        s.wf(),
    ensures
        chained(s.log_view(), s.genesis_hash()),
{
}

} // verus!
verus! {

/// The point-in-time query is stable under later additions: when `s2` is
/// `s1` after an addition recorded at `s1`'s end (as `add` ensures), every
/// position already covered by `s1` answers the same.
pub proof fn lemma_add_preserves_active_as_of(s1: State, s2: State, js: Seq<Seq<u8>>, p: u32)
    requires
        s1.wf(),
        p < s1.total_len(),
        forall|k: Seq<u8>|
            #![trigger lookup(s2.entries(), k)]
            lookup(s2.entries(), k) == add_result(
                lookup(s1.entries(), k),
                js.contains(k),
                s1.total_len() as u32,
            ),
    ensures
        active_as_of(s2.entries(), p) == active_as_of(s1.entries(), p),
{
    let at = s1.total_len() as u32;
    lemma_wf_hist_bounds(s1, at);
    lemma_active_stable_add(s1.entries(), s2.entries(), js, at, p);
}

/// The point-in-time query is stable under later removals, likewise.
pub proof fn lemma_remove_preserves_active_as_of(s1: State, s2: State, js: Seq<Seq<u8>>, p: u32)
    requires
        s1.wf(),
        p < s1.total_len(),
        forall|k: Seq<u8>|
            #![trigger lookup(s2.entries(), k)]
            lookup(s2.entries(), k) == remove_result(
                lookup(s1.entries(), k),
                js.contains(k),
                s1.total_len() as u32,
            ),
    ensures
        active_as_of(s2.entries(), p) == active_as_of(s1.entries(), p),
{
    let at = s1.total_len() as u32;
    lemma_wf_hist_bounds(s1, at);
    lemma_active_stable_remove(s1.entries(), s2.entries(), js, at, p);
}

/// In a well-formed state every recorded transition sits below the current
/// length, stated per looked-up value.
proof fn lemma_wf_hist_bounds(s: State, at: u32)
    requires
        s.wf(),
        s.total_len() <= at + 1,
    ensures
        forall|k: Seq<u8>, w: int|
            lookup(s.entries(), k) is Some && 0 <= w < hist_of_bytes(
                lookup(s.entries(), k)->Some_0,
            ).len() ==> #[trigger] hist_of_bytes(lookup(s.entries(), k)->Some_0)[w] <= at,
{
    assert forall|k: Seq<u8>, w: int|
        lookup(s.entries(), k) is Some && 0 <= w < hist_of_bytes(
            lookup(s.entries(), k)->Some_0,
        ).len() implies #[trigger] hist_of_bytes(lookup(s.entries(), k)->Some_0)[w] <= at by {
        lemma_lookup_some_index(s.entries(), k);
        let q = choose|q: int|
            0 <= q < s.entries().len() && s.entries()[q].0 == k && #[trigger] s.entries()[q].1
                == lookup(s.entries(), k)->Some_0;
        assert(hist_of_bytes(s.entries()[q].1)[w] < s.total_len());
    }
}

} // verus!
