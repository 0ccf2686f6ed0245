//! Trusted boundary to ic_certified_map. Two instantiations of its ordered
//! map are used: the juror index (`RbTree<Vec<u8>, Vec<u8>>`), whose contents
//! in key order are named by `pool_entries`, and the per-batch certification
//! tree (`RbTree<Vec<u8>, Hash>`), modelled by its sequence of insertions.
use vstd::prelude::*;
use crate::entries::{Entries, put, lookup};
use crate::sha::sha256_of;
use ic_certified_map::AsHashTree;

verus! {

#[verifier::external_type_specification]
#[verifier::external_body]
#[verifier::reject_recursive_types(K)]
#[verifier::reject_recursive_types(V)]
pub struct ExRbTree<K, V>(ic_certified_map::RbTree<K, V>);

/// The key/value pairs held by a juror-index tree, in increasing key order,
/// exactly as `RbTree::for_each` visits them.
pub uninterp spec fn pool_entries(t: ic_certified_map::RbTree<Vec<u8>, Vec<u8>>) -> Entries;

/// Relies on ic_certified_map::RbTree::new: a fresh tree holds nothing.
#[verifier::external_body]
pub fn pool_tree_new() -> (t: ic_certified_map::RbTree<Vec<u8>, Vec<u8>>)
    ensures
        pool_entries(t) == Seq::<(Seq<u8>, Seq<u8>)>::empty(),
{
    ic_certified_map::RbTree::new()
}

/// Relies on the derived Clone of ic_certified_map::RbTree: a deep copy of
/// the nodes, holding the same pairs.
#[verifier::external_body]
pub fn pool_tree_clone(t: &ic_certified_map::RbTree<Vec<u8>, Vec<u8>>) -> (r:
    ic_certified_map::RbTree<Vec<u8>, Vec<u8>>)
    ensures
        pool_entries(r) == pool_entries(*t),
{
    t.clone()
}

/// Relies on ic_certified_map::RbTree::insert: a binary-search-tree insert
/// that replaces the value of an existing key and otherwise adds the pair at
/// its ordered position, leaving all other pairs as they were.
#[verifier::external_body]
pub fn pool_tree_insert(t: &mut ic_certified_map::RbTree<Vec<u8>, Vec<u8>>, k: Vec<u8>, v: Vec<u8>)
    ensures
        pool_entries(*final(t)) == put(pool_entries(*old(t)), k@, v@),
{
    t.insert(k, v);
}

/// Relies on ic_certified_map::RbTree::get: a binary-search-tree lookup of
/// the value stored under the key.
#[verifier::external_body]
pub fn pool_tree_get(t: &ic_certified_map::RbTree<Vec<u8>, Vec<u8>>, k: &Vec<u8>) -> (r: Option<
    Vec<u8>>)
    ensures
        match r {
            Option::Some(v) => lookup(pool_entries(*t), k@) == Some(v@),
            Option::None => lookup(pool_entries(*t), k@) is None,
        },
{
    t.get(k.as_slice()).cloned()
}

/// Relies on ic_certified_map::RbTree::for_each: an in-order walk that visits
/// every pair in increasing key order.
#[verifier::external_body]
pub fn pool_tree_entries(t: &ic_certified_map::RbTree<Vec<u8>, Vec<u8>>) -> (r: Vec<(
    Vec<u8>,
    Vec<u8>,
)>)
    ensures
        r@.len() == pool_entries(*t).len(),
        forall|i: int|
            0 <= i < r@.len() ==> r@[i].0@ == pool_entries(*t)[i].0 && r@[i].1@ == pool_entries(
                *t,
            )[i].1,
{
    let mut r: Vec<(Vec<u8>, Vec<u8>)> = Vec::new();
    t.for_each(|k, v| r.push((k.to_vec(), v.clone())));
    r
}

/// The insertions made into a certification tree since its creation, in
/// order. The tree's shape, root hash and witness are functions of this
/// sequence alone.
pub uninterp spec fn block_inserts(t: ic_certified_map::RbTree<Vec<u8>, [u8; 32]>) -> Entries;

/// The root hash of a certification tree built by the given insertions.
pub uninterp spec fn rbtree_root_of(inserts: Entries) -> Seq<u8>;

/// The self-describing serialization of the witness tree of a certification
/// tree built by the given insertions, wrapped under the given label.
pub uninterp spec fn witness_of(label: Seq<u8>, inserts: Entries) -> Seq<u8>;

/// Relies on ic_certified_map::RbTree::new: a fresh tree holds nothing.
#[verifier::external_body]
pub fn block_tree_new() -> (t: ic_certified_map::RbTree<Vec<u8>, [u8; 32]>)
    ensures
        block_inserts(t) == Seq::<(Seq<u8>, Seq<u8>)>::empty(),
{
    ic_certified_map::RbTree::new()
}

/// Relies on ic_certified_map::RbTree::insert being deterministic: the tree
/// after an insert is a function of the tree before it and the pair inserted.
#[verifier::external_body]
pub fn block_tree_insert(t: &mut ic_certified_map::RbTree<Vec<u8>, [u8; 32]>, k: Vec<u8>, v: [u8;
    32])
    ensures
        block_inserts(*final(t)) == block_inserts(*old(t)).push((k@, v@)),
{
    t.insert(k, v);
}

/// Relies on ic_certified_map::AsHashTree::root_hash for RbTree: the root
/// hash is computed from the tree's nodes alone, so it is a function of the
/// insertions that built the tree.
#[verifier::external_body]
pub fn block_tree_root(t: &ic_certified_map::RbTree<Vec<u8>, [u8; 32]>) -> (r: [u8; 32])
    ensures
        r@ == rbtree_root_of(block_inserts(*t)),
{
    t.root_hash()
}

/// Relies on ic_certified_map::labeled (wrapping the tree's witness under the
/// label), serde's Serialize for HashTree, and serde_cbor's self-describing
/// serializer, all deterministic in the tree's nodes and the label.
/// Serializing into a fresh byte vector cannot fail.
#[verifier::external_body]
pub fn block_tree_witness(t: &ic_certified_map::RbTree<Vec<u8>, [u8; 32]>, label: &Vec<u8>) -> (r:
    Vec<u8>)
    ensures
        r@ == witness_of(label@, block_inserts(*t)),
{
    let tree = ic_certified_map::labeled(label.as_slice(), t.as_hash_tree());
    let mut serializer = serde_cbor::ser::Serializer::new(Vec::new());
    serializer.self_describe().unwrap();
    serde::Serialize::serialize(&tree, &mut serializer).unwrap();
    serializer.into_inner()
}

/// The domain separator that ic_certified_map::labeled_hash feeds to SHA-256
/// before the label: the length byte of "ic-hashtree-labeled" and that
/// string's bytes.
pub open spec fn labeled_domain_sep() -> Seq<u8> {
    seq![
        19u8,
        105u8,
        99u8,
        45u8,
        104u8,
        97u8,
        115u8,
        104u8,
        116u8,
        114u8,
        101u8,
        101u8,
        45u8,
        108u8,
        97u8,
        98u8,
        101u8,
        108u8,
        101u8,
        100u8,
    ]
}

/// Relies on ic_certified_map::labeled_hash: the SHA-256 digest of the
/// labeled-subtree domain separator, the label, and the content hash.
#[verifier::external_body]
pub fn labeled_hash(label: &Vec<u8>, content: &[u8; 32]) -> (r: [u8; 32])
    ensures
        r@ == sha256_of(labeled_domain_sep() + label@ + content@),
{
    ic_certified_map::labeled_hash(label.as_slice(), content)
}

} // verus!
