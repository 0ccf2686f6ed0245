//! Reading the certification authority's certificate. A certificate arrives
//! as a self-describing CBOR map whose "tree" entry holds a hash tree; the
//! value this service certified sits under the path
//! canister / <service id> / certified_data. Only definite-length items are
//! accepted, which is what the authority emits.
use vstd::prelude::*;

verus! {

/// A hash tree as embedded in a certificate.
pub enum CertTree {
    Empty,
    Fork(Box<CertTree>, Box<CertTree>),
    Labeled(Vec<u8>, Box<CertTree>),
    Leaf(Vec<u8>),
    Pruned(Vec<u8>),
}

/// The mathematical value of a `CertTree`.
pub enum TreeModel {
    Empty,
    Fork(Box<TreeModel>, Box<TreeModel>),
    Labeled(Seq<u8>, Box<TreeModel>),
    Leaf(Seq<u8>),
    Pruned(Seq<u8>),
}

/// The mathematical value of a tree.
pub open spec fn tree_view(t: CertTree) -> TreeModel
    decreases t,
{
    match t {
        CertTree::Empty => TreeModel::Empty,
        CertTree::Fork(l, r) => TreeModel::Fork(Box::new(tree_view(*l)), Box::new(tree_view(*r))),
        CertTree::Labeled(lab, sub) => TreeModel::Labeled(lab@, Box::new(tree_view(*sub))),
        CertTree::Leaf(v) => TreeModel::Leaf(v@),
        CertTree::Pruned(h) => TreeModel::Pruned(h@),
    }
}

impl View for CertTree {
    type V = TreeModel;

    open spec fn view(&self) -> TreeModel {
        tree_view(*self)
    }
}

/// A parsed item head: major type, argument value, position after the head.
pub open spec fn sp_head(s: Seq<u8>, pos: int) -> Option<(u8, u64, int)> {
    if !(0 <= pos && pos + 1 <= s.len()) {
        Option::None
    } else {
        let major = s[pos] / 32;
        let ai = s[pos] % 32;
        if ai < 24 {
            Option::Some((major, ai as u64, pos + 1))
        } else if ai == 24 {
            if pos + 2 <= s.len() {
                Option::Some((major, s[pos + 1] as u64, pos + 2))
            } else {
                Option::None
            }
        } else if ai == 25 {
            if pos + 3 <= s.len() {
                Option::Some((major, (s[pos + 1] * 0x100 + s[pos + 2]) as u64, pos + 3))
            } else {
                Option::None
            }
        } else if ai == 26 {
            if pos + 5 <= s.len() {
                Option::Some(
                    (
                        major,
                        (s[pos + 1] * 0x1000000 + s[pos + 2] * 0x10000 + s[pos + 3] * 0x100 + s[pos
                            + 4]) as u64,
                        pos + 5,
                    ),
                )
            } else {
                Option::None
            }
        } else if ai == 27 {
            if pos + 9 <= s.len() {
                Option::Some(
                    (
                        major,
                        (s[pos + 1] * 0x100000000000000 + s[pos + 2] * 0x1000000000000 + s[pos + 3]
                            * 0x10000000000 + s[pos + 4] * 0x100000000 + s[pos + 5] * 0x1000000 + s[pos
                            + 6] * 0x10000 + s[pos + 7] * 0x100 + s[pos + 8]) as u64,
                        pos + 9,
                    ),
                )
            } else {
                Option::None
            }
        } else {
            Option::None
        }
    }
}

/// The position after the item at `pos`, if it is well formed.
pub open spec fn sp_skip(s: Seq<u8>, pos: int) -> Option<int>
    decreases s.len() - pos, 0int,
{
    match sp_head(s, pos) {
        Option::None => Option::None,
        Option::Some((major, n, p)) => {
            if major == 0 || major == 1 {
                Option::Some(p)
            } else if major == 2 || major == 3 {
                if p + n <= s.len() {
                    Option::Some(p + n)
                } else {
                    Option::None
                }
            } else if major == 4 {
                sp_skip_n(s, p, n as nat)
            } else if major == 5 {
                // A map of 2^63 entries cannot fit in memory; refuse it.
                if n >= 0x8000000000000000 {
                    Option::None
                } else {
                    sp_skip_n(s, p, 2 * n as nat)
                }
            } else if major == 6 {
                sp_skip_n(s, p, 1)
            } else {
                // major 7: the head already carries the whole item
                Option::Some(p)
            }
        },
    }
}

/// The position after `count` consecutive items starting at `pos`.
pub open spec fn sp_skip_n(s: Seq<u8>, pos: int, count: nat) -> Option<int>
    decreases s.len() - pos, count,
{
    if count == 0 {
        Option::Some(pos)
    } else if !(0 <= pos && pos < s.len()) {
        Option::None
    } else {
        match sp_skip(s, pos) {
            Option::None => Option::None,
            Option::Some(p) => {
                if p <= pos || p > s.len() {
                    Option::None
                } else {
                    sp_skip_n(s, p, (count - 1) as nat)
                }
            },
        }
    }
}

/// A definite-length byte string at `pos`.
pub open spec fn sp_bstr(s: Seq<u8>, pos: int) -> Option<(Seq<u8>, int)> {
    match sp_head(s, pos) {
        Option::None => Option::None,
        Option::Some((major, n, p)) => {
            if major == 2 && p + n <= s.len() {
                Option::Some((s.subrange(p, p + n), p + n))
            } else {
                Option::None
            }
        },
    }
}

/// A definite-length text string at `pos`, as its UTF-8 bytes.
pub open spec fn sp_tstr(s: Seq<u8>, pos: int) -> Option<(Seq<u8>, int)> {
    match sp_head(s, pos) {
        Option::None => Option::None,
        Option::Some((major, n, p)) => {
            if major == 3 && p + n <= s.len() {
                Option::Some((s.subrange(p, p + n), p + n))
            } else {
                Option::None
            }
        },
    }
}

/// A hash tree at `pos`: an array [tag, ...] with tag 0 empty, 1 fork,
/// 2 labeled, 3 leaf, 4 pruned.
pub open spec fn sp_tree(s: Seq<u8>, pos: int) -> Option<(TreeModel, int)>
    decreases s.len() - pos,
{
    match sp_head(s, pos) {
        Option::None => Option::None,
        Option::Some((major, n, p1)) => {
            if major != 4 {
                Option::None
            } else {
                match sp_head(s, p1) {
                    Option::None => Option::None,
                    Option::Some((tmajor, tag, p2)) => {
                        if tmajor != 0 || !(p1 < p2 <= s.len()) {
                            Option::None
                        } else if tag == 0 && n == 1 {
                            Option::Some((TreeModel::Empty, p2))
                        } else if tag == 1 && n == 3 {
                            match sp_tree(s, p2) {
                                Option::None => Option::None,
                                Option::Some((l, p3)) => {
                                    if p3 <= p2 || p3 > s.len() {
                                        Option::None
                                    } else {
                                        match sp_tree(s, p3) {
                                            Option::None => Option::None,
                                            Option::Some((r, p4)) => Option::Some(
                                                (TreeModel::Fork(Box::new(l), Box::new(r)), p4),
                                            ),
                                        }
                                    }
                                },
                            }
                        } else if tag == 2 && n == 3 {
                            match sp_bstr(s, p2) {
                                Option::None => Option::None,
                                Option::Some((lab, p3)) => {
                                    if p3 <= p2 || p3 > s.len() {
                                        Option::None
                                    } else {
                                        match sp_tree(s, p3) {
                                            Option::None => Option::None,
                                            Option::Some((t, p4)) => Option::Some(
                                                (TreeModel::Labeled(lab, Box::new(t)), p4),
                                            ),
                                        }
                                    }
                                },
                            }
                        } else if tag == 3 && n == 2 {
                            match sp_bstr(s, p2) {
                                Option::None => Option::None,
                                Option::Some((v, p3)) => Option::Some((TreeModel::Leaf(v), p3)),
                            }
                        } else if tag == 4 && n == 2 {
                            match sp_bstr(s, p2) {
                                Option::None => Option::None,
                                Option::Some((h, p3)) => Option::Some((TreeModel::Pruned(h), p3)),
                            }
                        } else {
                            Option::None
                        }
                    },
                }
            }
        },
    }
}

/// The UTF-8 bytes of "tree", the certificate map entry holding the state
/// tree.
pub open spec fn tree_key() -> Seq<u8> {
    seq![116u8, 114u8, 101u8, 101u8]
}

/// Scans `count` remaining map entries for the "tree" key and parses its
/// hash tree.
pub open spec fn sp_find_tree(s: Seq<u8>, pos: int, count: nat) -> Option<TreeModel>
    decreases s.len() - pos, count,
{
    if count == 0 || !(0 <= pos && pos < s.len()) {
        Option::None
    } else {
        match sp_tstr(s, pos) {
            Option::None => Option::None,
            Option::Some((key, p1)) => {
                if p1 <= pos || p1 > s.len() {
                    Option::None
                } else if key == tree_key() {
                    match sp_tree(s, p1) {
                        Option::None => Option::None,
                        Option::Some((t, _)) => Option::Some(t),
                    }
                } else {
                    match sp_skip(s, p1) {
                        Option::None => Option::None,
                        Option::Some(p2) => {
                            if p2 <= p1 || p2 > s.len() {
                                Option::None
                            } else {
                                sp_find_tree(s, p2, (count - 1) as nat)
                            }
                        },
                    }
                }
            },
        }
    }
}

/// The state tree embedded in a certificate: an optional self-describe tag,
/// then a map with a "tree" entry.
pub open spec fn sp_cert_tree(s: Seq<u8>) -> Option<TreeModel> {
    match sp_head(s, 0) {
        Option::None => Option::None,
        Option::Some((major0, _, p0)) => {
            let mpos: int = if major0 == 6 {
                p0
            } else {
                0
            };
            match sp_head(s, mpos) {
                Option::None => Option::None,
                Option::Some((major, n, p1)) => {
                    if major != 5 {
                        Option::None
                    } else {
                        sp_find_tree(s, p1, n as nat)
                    }
                },
            }
        },
    }
}

/// The subtree under `label` among the forks of `t`, leftmost first.
pub open spec fn sp_find(t: TreeModel, label: Seq<u8>) -> Option<TreeModel>
    decreases t,
{
    match t {
        TreeModel::Empty => Option::None,
        TreeModel::Leaf(_) => Option::None,
        TreeModel::Pruned(_) => Option::None,
        TreeModel::Labeled(l, sub) => if l == label {
            Option::Some(*sub)
        } else {
            Option::None
        },
        TreeModel::Fork(l, r) => match sp_find(*l, label) {
            Option::Some(x) => Option::Some(x),
            Option::None => sp_find(*r, label),
        },
    }
}

/// The leaf value at path `l1 / l2 / l3`, if present.
pub open spec fn sp_lookup3(t: TreeModel, l1: Seq<u8>, l2: Seq<u8>, l3: Seq<u8>) -> Option<Seq<u8>> {
    match sp_find(t, l1) {
        Option::None => Option::None,
        Option::Some(t1) => match sp_find(t1, l2) {
            Option::None => Option::None,
            Option::Some(t2) => match sp_find(t2, l3) {
                Option::Some(TreeModel::Leaf(v)) => Option::Some(v),
                _ => Option::None,
            },
        },
    }
}

/// The UTF-8 bytes of "canister".
pub open spec fn canister_label() -> Seq<u8> {
    seq![99u8, 97u8, 110u8, 105u8, 115u8, 116u8, 101u8, 114u8]
}

/// The UTF-8 bytes of "certified_data".
pub open spec fn certified_data_label() -> Seq<u8> {
    seq![
        99u8,
        101u8,
        114u8,
        116u8,
        105u8,
        102u8,
        105u8,
        101u8,
        100u8,
        95u8,
        100u8,
        97u8,
        116u8,
        97u8,
    ]
}

/// The value the certificate asserts was certified for the service with the
/// given id: the leaf under canister / id / certified_data of its state tree.
pub open spec fn embedded_value(cert: Seq<u8>, id: Seq<u8>) -> Option<Seq<u8>> {
    match sp_cert_tree(cert) {
        Option::None => Option::None,
        Option::Some(t) => sp_lookup3(t, canister_label(), id, certified_data_label()),
    }
}

} // verus!
// Executable parsing, each function pinned to its specification above.
verus! {

/// Reads an item head at `pos`.
fn parse_head(src: &Vec<u8>, pos: usize) -> (r: Option<(u8, u64, usize)>)
    ensures
        r matches Some(h) ==> sp_head(src@, pos as int) == Some((h.0, h.1, h.2 as int)) && pos < h.2
            <= src@.len(),
        r is None ==> sp_head(src@, pos as int) is None,
{
    let len = src.len();
    if pos >= len {
        return Option::None;
    }
    let b = src[pos];
    let major = b / 32;
    let ai = b % 32;
    if ai < 24 {
        Option::Some((major, ai as u64, pos + 1))
    } else if ai == 24 {
        if len - pos >= 2 {
            Option::Some((major, src[pos + 1] as u64, pos + 2))
        } else {
            Option::None
        }
    } else if ai == 25 {
        if len - pos >= 3 {
            let v = (src[pos + 1] as u64) * 0x100 + (src[pos + 2] as u64);
            Option::Some((major, v, pos + 3))
        } else {
            Option::None
        }
    } else if ai == 26 {
        if len - pos >= 5 {
            let v = (src[pos + 1] as u64) * 0x1000000 + (src[pos + 2] as u64) * 0x10000 + (src[pos
                + 3] as u64) * 0x100 + (src[pos + 4] as u64);
            Option::Some((major, v, pos + 5))
        } else {
            Option::None
        }
    } else if ai == 27 {
        if len - pos >= 9 {
            let v = (src[pos + 1] as u64) * 0x100000000000000 + (src[pos + 2] as u64)
                * 0x1000000000000 + (src[pos + 3] as u64) * 0x10000000000 + (src[pos + 4] as u64)
                * 0x100000000 + (src[pos + 5] as u64) * 0x1000000 + (src[pos + 6] as u64) * 0x10000
                + (src[pos + 7] as u64) * 0x100 + (src[pos + 8] as u64);
            Option::Some((major, v, pos + 9))
        } else {
            Option::None
        }
    } else {
        Option::None
    }
}

/// Steps over the item at `pos`.
fn skip_item(src: &Vec<u8>, pos: usize) -> (r: Option<usize>)
    ensures
        r matches Some(p) ==> sp_skip(src@, pos as int) == Some(p as int) && pos < p <= src@.len(),
        r is None ==> sp_skip(src@, pos as int) is None,
    decreases src@.len() - pos, 0int,
{
    let len = src.len();
    match parse_head(src, pos) {
        Option::None => Option::None,
        Option::Some((major, n, p)) => {
            if major == 0 || major == 1 {
                Option::Some(p)
            } else if major == 2 || major == 3 {
                if n <= (len - p) as u64 {
                    Option::Some(p + n as usize)
                } else {
                    Option::None
                }
            } else if major == 4 {
                skip_items(src, p, n)
            } else if major == 5 {
                if n >= 0x8000000000000000 {
                    Option::None
                } else {
                    skip_items(src, p, 2 * n)
                }
            } else if major == 6 {
                skip_items(src, p, 1)
            } else {
                Option::Some(p)
            }
        },
    }
}

/// Steps over `count` items starting at `pos`.
fn skip_items(src: &Vec<u8>, pos: usize, count: u64) -> (r: Option<usize>)
    requires
        pos <= src@.len(),
    ensures
        r matches Some(p) ==> sp_skip_n(src@, pos as int, count as nat) == Some(p as int) && pos <= p
            <= src@.len(),
        r is None ==> sp_skip_n(src@, pos as int, count as nat) is None,
    decreases src@.len() - pos, count,
{
    if count == 0 {
        return Option::Some(pos);
    }
    if pos >= src.len() {
        return Option::None;
    }
    match skip_item(src, pos) {
        Option::None => Option::None,
        Option::Some(p) => skip_items(src, p, count - 1),
    }
}

/// Reads a definite-length byte string at `pos`.
fn parse_bstr(src: &Vec<u8>, pos: usize) -> (r: Option<(Vec<u8>, usize)>)
    ensures
        r matches Some(h) ==> sp_bstr(src@, pos as int) == Some((h.0@, h.1 as int)) && pos < h.1
            <= src@.len(),
        r is None ==> sp_bstr(src@, pos as int) is None,
{
    let len = src.len();
    match parse_head(src, pos) {
        Option::None => Option::None,
        Option::Some((major, n, p)) => {
            if major == 2 && n <= (len - p) as u64 {
                let e = p + n as usize;
                Option::Some((crate::codec::copy_range(src, p, e), e))
            } else {
                Option::None
            }
        },
    }
}

/// Reads a definite-length text string at `pos`, as its UTF-8 bytes.
fn parse_tstr(src: &Vec<u8>, pos: usize) -> (r: Option<(Vec<u8>, usize)>)
    ensures
        r matches Some(h) ==> sp_tstr(src@, pos as int) == Some((h.0@, h.1 as int)) && pos < h.1
            <= src@.len(),
        r is None ==> sp_tstr(src@, pos as int) is None,
{
    let len = src.len();
    match parse_head(src, pos) {
        Option::None => Option::None,
        Option::Some((major, n, p)) => {
            if major == 3 && n <= (len - p) as u64 {
                let e = p + n as usize;
                Option::Some((crate::codec::copy_range(src, p, e), e))
            } else {
                Option::None
            }
        },
    }
}

/// Reads a hash tree at `pos`.
fn parse_tree(src: &Vec<u8>, pos: usize) -> (r: Option<(CertTree, usize)>)
    ensures
        r matches Some(h) ==> sp_tree(src@, pos as int) == Some((h.0@, h.1 as int)) && pos < h.1
            <= src@.len(),
        r is None ==> sp_tree(src@, pos as int) is None,
    decreases src@.len() - pos,
{
    match parse_head(src, pos) {
        Option::None => Option::None,
        Option::Some((major, n, p1)) => {
            if major != 4 {
                return Option::None;
            }
            match parse_head(src, p1) {
                Option::None => Option::None,
                Option::Some((tmajor, tag, p2)) => {
                    if tmajor != 0 {
                        Option::None
                    } else if tag == 0 && n == 1 {
                        Option::Some((CertTree::Empty, p2))
                    } else if tag == 1 && n == 3 {
                        match parse_tree(src, p2) {
                            Option::None => Option::None,
                            Option::Some((l, p3)) => {
                                match parse_tree(src, p3) {
                                    Option::None => Option::None,
                                    Option::Some((rt, p4)) => Option::Some(
                                        (CertTree::Fork(Box::new(l), Box::new(rt)), p4),
                                    ),
                                }
                            },
                        }
                    } else if tag == 2 && n == 3 {
                        match parse_bstr(src, p2) {
                            Option::None => Option::None,
                            Option::Some((lab, p3)) => {
                                match parse_tree(src, p3) {
                                    Option::None => Option::None,
                                    Option::Some((t, p4)) => Option::Some(
                                        (CertTree::Labeled(lab, Box::new(t)), p4),
                                    ),
                                }
                            },
                        }
                    } else if tag == 3 && n == 2 {
                        match parse_bstr(src, p2) {
                            Option::None => Option::None,
                            Option::Some((v, p3)) => Option::Some((CertTree::Leaf(v), p3)),
                        }
                    } else if tag == 4 && n == 2 {
                        match parse_bstr(src, p2) {
                            Option::None => Option::None,
                            Option::Some((h, p3)) => Option::Some((CertTree::Pruned(h), p3)),
                        }
                    } else {
                        Option::None
                    }
                },
            }
        },
    }
}

/// The "tree" key as bytes.
fn tree_key_bytes() -> (r: Vec<u8>)
    ensures
        r@ == tree_key(),
{
    let mut v: Vec<u8> = Vec::new();
    v.push(116);
    v.push(114);
    v.push(101);
    v.push(101);
    proof {
        assert(v@ =~= tree_key());
    }
    v
}

/// Scans `count` map entries for the "tree" key and parses its hash tree.
fn find_tree_entry(src: &Vec<u8>, pos: usize, count: u64) -> (r: Option<CertTree>)
    ensures
        r matches Some(t) ==> sp_find_tree(src@, pos as int, count as nat) == Some(t@),
        r is None ==> sp_find_tree(src@, pos as int, count as nat) is None,
    decreases src@.len() - pos, count,
{
    if count == 0 {
        return Option::None;
    }
    if pos >= src.len() {
        return Option::None;
    }
    match parse_tstr(src, pos) {
        Option::None => Option::None,
        Option::Some((key, p1)) => {
            let tk = tree_key_bytes();
            if crate::bytes::bytes_eq(&key, &tk) {
                match parse_tree(src, p1) {
                    Option::None => Option::None,
                    Option::Some((t, _)) => Option::Some(t),
                }
            } else {
                match skip_item(src, p1) {
                    Option::None => Option::None,
                    Option::Some(p2) => find_tree_entry(src, p2, count - 1),
                }
            }
        },
    }
}

/// Parses a certificate far enough to find its embedded state tree.
fn parse_cert_tree(src: &Vec<u8>) -> (r: Option<CertTree>)
    ensures
        r matches Some(t) ==> sp_cert_tree(src@) == Some(t@),
        r is None ==> sp_cert_tree(src@) is None,
{
    match parse_head(src, 0) {
        Option::None => Option::None,
        Option::Some((major0, _, p0)) => {
            let mpos: usize = if major0 == 6 {
                p0
            } else {
                0
            };
            match parse_head(src, mpos) {
                Option::None => Option::None,
                Option::Some((major, n, p1)) => {
                    if major != 5 {
                        Option::None
                    } else {
                        find_tree_entry(src, p1, n)
                    }
                },
            }
        },
    }
}

/// The subtree under `label` among the forks of `t`, leftmost first.
fn find_label<'a>(t: &'a CertTree, label: &Vec<u8>) -> (r: Option<&'a CertTree>)
    ensures
        r matches Some(sub) ==> sp_find(t@, label@) == Some(sub@),
        r is None ==> sp_find(t@, label@) is None,
    decreases *t,
{
    match t {
        CertTree::Empty => Option::None,
        CertTree::Leaf(_) => Option::None,
        CertTree::Pruned(_) => Option::None,
        CertTree::Labeled(l, sub) => {
            if crate::bytes::bytes_eq(l, label) {
                Option::Some(&**sub)
            } else {
                Option::None
            }
        },
        CertTree::Fork(l, r) => {
            match find_label(&**l, label) {
                Option::Some(x) => Option::Some(x),
                Option::None => find_label(&**r, label),
            }
        },
    }
}

/// The value the certificate asserts was certified for the service with id
/// `id`, if the certificate parses and carries one.
#[verifier::rlimit(100)]
#[verifier::spinoff_prover]
pub fn extract_embedded(cert: &Vec<u8>, id: &Vec<u8>) -> (r: Option<Vec<u8>>)
    ensures
        r matches Some(v) ==> embedded_value(cert@, id@) == Some(v@),
        r is None ==> embedded_value(cert@, id@) is None,
{
    let tree = match parse_cert_tree(cert) {
        Option::None => {
            return Option::None;
        },
        Option::Some(t) => t,
    };
    let mut l1: Vec<u8> = Vec::new();
    l1.push(99);
    l1.push(97);
    l1.push(110);
    l1.push(105);
    l1.push(115);
    l1.push(116);
    l1.push(101);
    l1.push(114);
    proof {
        assert(l1@ =~= canister_label());
    }
    let mut l3: Vec<u8> = Vec::new();
    l3.push(99);
    l3.push(101);
    l3.push(114);
    l3.push(116);
    l3.push(105);
    l3.push(102);
    l3.push(105);
    l3.push(101);
    l3.push(100);
    l3.push(95);
    l3.push(100);
    l3.push(97);
    l3.push(116);
    l3.push(97);
    proof {
        assert(l3@ =~= certified_data_label());
    }
    let t1 = match find_label(&tree, &l1) {
        Option::None => {
            return Option::None;
        },
        Option::Some(t) => t,
    };
    let t2 = match find_label(t1, id) {
        Option::None => {
            return Option::None;
        },
        Option::Some(t) => t,
    };
    let t3 = match find_label(t2, &l3) {
        Option::None => {
            return Option::None;
        },
        Option::Some(t) => t,
    };
    match t3 {
        CertTree::Leaf(v) => Option::Some(crate::bytes::clone_bytes(v)),
        _ => Option::None,
    }
}

} // verus!
