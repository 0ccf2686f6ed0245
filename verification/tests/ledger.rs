use jury_ledger::state::{init, State};
use jury_ledger::types::{Block, Data, Error, Kind};
use jury_ledger::codec::{decode_block, decode_data, encode_block, encode_data};
use jury_ledger::history::{from_history, to_history};
use sha2::Digest;
use ic_certified_map::AsHashTree;

fn bv(b: &[u8]) -> Vec<u8> {
    b.to_vec()
}

fn admin() -> Vec<u8> {
    bv(b"admin-principal")
}

fn canister_id() -> Vec<u8> {
    bv(b"\x01\x02\x03\x04")
}

fn fresh() -> State {
    init(admin(), canister_id(), None)
}

// Minimal CBOR builders for certificates of the shape the service reads.
fn cbor_tstr(s: &str) -> Vec<u8> {
    let mut out = vec![0x60u8 | (s.len() as u8)];
    out.extend_from_slice(s.as_bytes());
    out
}

fn cbor_bstr(b: &[u8]) -> Vec<u8> {
    let mut out = Vec::new();
    if b.len() < 24 {
        out.push(0x40u8 | (b.len() as u8));
    } else {
        out.push(0x58);
        out.push(b.len() as u8);
    }
    out.extend_from_slice(b);
    out
}

fn cbor_arr(n: u8) -> Vec<u8> {
    vec![0x80u8 | n]
}

fn cbor_uint(n: u8) -> Vec<u8> {
    vec![n]
}

/// A certificate whose state tree holds `value` under
/// canister / `id` / certified_data, next to a dummy signature.
fn build_certificate(id: &[u8], value: &[u8]) -> Vec<u8> {
    let mut leaf = cbor_arr(2);
    leaf.extend(cbor_uint(3));
    leaf.extend(cbor_bstr(value));
    let mut l3 = cbor_arr(3);
    l3.extend(cbor_uint(2));
    l3.extend(cbor_bstr(b"certified_data"));
    l3.extend(leaf);
    let mut l2 = cbor_arr(3);
    l2.extend(cbor_uint(2));
    l2.extend(cbor_bstr(id));
    l2.extend(l3);
    let mut l1 = cbor_arr(3);
    l1.extend(cbor_uint(2));
    l1.extend(cbor_bstr(b"canister"));
    l1.extend(l2);
    let mut cert = vec![0xd9u8, 0xd9, 0xf7, 0xa2];
    cert.extend(cbor_tstr("tree"));
    cert.extend(l1);
    cert.extend(cbor_tstr("signature"));
    cert.extend(cbor_bstr(b"sig"));
    cert
}

fn commit_current(s: &mut State) -> u32 {
    let token = s.certified_data();
    let cert = build_certificate(&canister_id(), &token);
    s.commit(&admin(), cert).unwrap().unwrap()
}

#[test]
fn init_authorizes_creator() {
    let s = fresh();
    assert!(s.is_authorized(&admin()));
    assert!(!s.is_authorized(&bv(b"someone-else")));
    assert_eq!(s.get_authorized(), vec![admin()]);
    assert_eq!(s.length(), 0);
    assert_eq!(s.get_pending(), 0);
}

#[test]
fn unauthorized_callers_change_nothing() {
    let mut s = fresh();
    let intruder = bv(b"intruder");
    assert_eq!(s.add(&intruder, vec![bv(b"a")], bv(b"m")), Err(Error::NotAuthorized));
    assert_eq!(s.remove(&intruder, vec![bv(b"a")], bv(b"m")), Err(Error::NotAuthorized));
    assert_eq!(
        s.select(&intruder, 0, 1, vec![0u8; 32], bv(b"m")),
        Err(Error::NotAuthorized)
    );
    assert_eq!(s.expand(&intruder, 0, 1, bv(b"m")), Err(Error::NotAuthorized));
    assert_eq!(s.commit(&intruder, vec![1, 2, 3]), Err(Error::NotAuthorized));
    assert_eq!(s.authorize(&intruder, bv(b"crony")), Err(Error::NotAuthorized));
    assert_eq!(s.deauthorize(&intruder, &admin()), Err(Error::NotAuthorized));
    assert_eq!(s.length(), 0);
    assert_eq!(s.get_pending(), 0);
    assert_eq!(s.get_authorized(), vec![admin()]);
}

#[test]
fn authorize_and_deauthorize() {
    let mut s = fresh();
    let other = bv(b"other");
    s.authorize(&admin(), other.clone()).unwrap();
    assert!(s.is_authorized(&other));
    let pos = s.add(&other, vec![bv(b"j1")], bv(b"by other")).unwrap();
    assert_eq!(pos, 0);
    s.deauthorize(&admin(), &other).unwrap();
    assert!(!s.is_authorized(&other));
    assert_eq!(s.add(&other, vec![bv(b"j2")], bv(b"m")), Err(Error::NotAuthorized));
    assert_eq!(s.deauthorize(&admin(), &other), Err(Error::NotFound));
}

#[test]
fn pool_reflects_membership_history() {
    let mut s = fresh();
    let a = bv(b"alice");
    let b = bv(b"bob");
    let c = bv(b"carol");
    let p0 = s.add(&admin(), vec![a.clone(), b.clone(), c.clone()], bv(b"seed pool")).unwrap();
    assert_eq!(p0, 0);
    let mut expect = vec![a.clone(), b.clone(), c.clone()];
    expect.sort();
    assert_eq!(s.collect_pool(0), expect);
    assert_eq!(s.get_pool_size(0), 3);
    let p1 = s.remove(&admin(), vec![b.clone()], bv(b"bob out")).unwrap();
    assert_eq!(p1, 1);
    // The pool as of position 0 is unchanged by the later removal.
    assert_eq!(s.collect_pool(0), expect);
    // As of position 1 the removal is visible.
    let mut expect1 = vec![a.clone(), c.clone()];
    expect1.sort();
    assert_eq!(s.collect_pool(1), expect1);
    // Re-adding later restores activity going forward only.
    let p2 = s.add(&admin(), vec![b.clone()], bv(b"bob back")).unwrap();
    assert_eq!(p2, 2);
    assert_eq!(s.collect_pool(1), expect1);
    assert_eq!(s.collect_pool(2), expect);
    // Removing someone never tracked is a silent no-op.
    s.remove(&admin(), vec![bv(b"nobody")], bv(b"m")).unwrap();
    assert_eq!(s.get_pool_size(3), 3);
}

#[test]
fn add_is_idempotent_for_active_jurors() {
    let mut s = fresh();
    let a = bv(b"alice");
    s.add(&admin(), vec![a.clone(), a.clone()], bv(b"twice in one event")).unwrap();
    s.add(&admin(), vec![a.clone()], bv(b"again")).unwrap();
    assert_eq!(s.collect_pool(1), vec![a.clone()]);
    assert_eq!(s.get_pool_size(1), 1);
}

#[test]
fn capacity_error_on_full_history() {
    let mut s = fresh();
    let a = bv(b"alice");
    // Eight transitions fill the history: four adds and four removals.
    for _ in 0..4 {
        s.add(&admin(), vec![a.clone()], bv(b"in")).unwrap();
        s.remove(&admin(), vec![a.clone()], bv(b"out")).unwrap();
    }
    let len_before = s.length();
    let pending_before = s.get_pending();
    assert_eq!(s.add(&admin(), vec![a.clone()], bv(b"in")), Err(Error::Capacity));
    assert_eq!(s.length(), len_before);
    assert_eq!(s.get_pending(), pending_before);
    // Another juror is unaffected by alice's full history.
    s.add(&admin(), vec![bv(b"bob")], bv(b"in")).unwrap();
}

#[test]
fn history_bytes_roundtrip() {
    let h: Vec<u32> = vec![0, 1, 7, 0x01020304];
    let b = from_history(&h);
    assert_eq!(b.len(), 16);
    assert_eq!(to_history(&b), h);
    assert_eq!(to_history(&Vec::new()), Vec::<u32>::new());
    assert_eq!(from_history(&vec![5])[..4], [5, 0, 0, 0]);
}

#[test]
fn sampling_draws_distinct_pool_members() {
    let mut s = fresh();
    let names: Vec<Vec<u8>> = (0..5).map(|i| vec![b'j', b'0' + i]).collect();
    s.add(&admin(), names.clone(), bv(b"pool")).unwrap();
    let seed = vec![7u8; 32];
    let jury = s.make_jury(0, 3, &seed).unwrap();
    assert_eq!(jury.len(), 3);
    for j in &jury {
        assert!(names.contains(j));
    }
    for x in 0..jury.len() {
        for y in 0..x {
            assert_ne!(jury[x], jury[y]);
        }
    }
    // Requesting more than the pool holds fails and records nothing.
    assert_eq!(s.make_jury(0, 6, &seed), Err(Error::Sampling));
    assert_eq!(s.select(&admin(), 0, 6, seed.clone(), bv(b"m")), Err(Error::Sampling));
    assert_eq!(s.get_pending(), 1);
    // A seed of the wrong length is refused before anything happens.
    assert_eq!(s.select(&admin(), 0, 1, vec![7u8; 31], bv(b"m")), Err(Error::Beacon));
}

#[test]
fn sampling_is_deterministic_in_the_seed() {
    let mut s = fresh();
    let names: Vec<Vec<u8>> = (0..5).map(|i| vec![b'j', b'0' + i]).collect();
    s.add(&admin(), names.clone(), bv(b"pool")).unwrap();
    let seed = vec![9u8; 32];
    let j1 = s.make_jury(0, 4, &seed).unwrap();
    let j2 = s.make_jury(0, 4, &seed).unwrap();
    assert_eq!(j1, j2);
    let other = s.make_jury(0, 4, &vec![10u8; 32]).unwrap();
    // A different seed draws a different order (with overwhelming
    // probability for this pool); both remain permutations of size four.
    assert_eq!(other.len(), 4);
}

#[test]
fn sampling_is_prefix_stable() {
    let seed = vec![42u8; 32];
    let names: Vec<Vec<u8>> = (0..5).map(|i| vec![b'p', b'0' + i]).collect();

    let mut s1 = fresh();
    s1.add(&admin(), names.clone(), bv(b"pool")).unwrap();
    let short = s1.make_jury(0, 2, &seed).unwrap();

    let mut s2 = fresh();
    s2.add(&admin(), names.clone(), bv(b"pool")).unwrap();
    let long = s2.make_jury(0, 4, &seed).unwrap();

    assert_eq!(short[..], long[..2]);
}

#[test]
fn expand_appends_without_reshuffling() {
    let seed = vec![42u8; 32];
    let names: Vec<Vec<u8>> = (0..5).map(|i| vec![b'p', b'0' + i]).collect();

    let mut s = fresh();
    s.add(&admin(), names.clone(), bv(b"pool")).unwrap();
    let sel_pos = s.select(&admin(), 0, 2, seed.clone(), bv(b"pick two")).unwrap();
    assert_eq!(sel_pos, 1);
    let two = s.get_jurors(sel_pos).unwrap();
    let exp_pos = s.expand(&admin(), sel_pos, 1, bv(b"one more")).unwrap();
    assert_eq!(exp_pos, 2);
    let extra = s.get_jurors(exp_pos).unwrap();
    assert_eq!(extra.len(), 1);

    // An independent draw of three from the same pool and seed is exactly
    // the original two followed by the expansion.
    let mut s2 = fresh();
    s2.add(&admin(), names.clone(), bv(b"pool")).unwrap();
    let three = s2.make_jury(0, 3, &seed).unwrap();
    assert_eq!(three[..2], two[..]);
    assert_eq!(three[2], extra[0]);
    // The stored expansion event carries the original seed for audit.
    let block = s.get_block(exp_pos).unwrap();
    assert_eq!(block.data.rand, Some(seed));
    assert_eq!(block.data.kind, Kind::Expand);
}

#[test]
fn expand_of_a_membership_event_is_refused() {
    let mut s = fresh();
    s.add(&admin(), vec![bv(b"a")], bv(b"m")).unwrap();
    assert_eq!(s.expand(&admin(), 0, 1, bv(b"m")), Err(Error::NotFound));
    assert_eq!(s.expand(&admin(), 9, 1, bv(b"m")), Err(Error::NotFound));
}

#[test]
fn commit_moves_the_whole_batch() {
    let mut s = fresh();
    s.add(&admin(), vec![bv(b"a"), bv(b"b")], bv(b"first")).unwrap();
    s.add(&admin(), vec![bv(b"c")], bv(b"second")).unwrap();
    assert_eq!(s.length(), 2);
    assert_eq!(s.get_pending(), 2);
    let new_len = commit_current(&mut s);
    assert_eq!(new_len, 2);
    assert_eq!(s.length(), 2);
    assert_eq!(s.get_pending(), 0);
    // Both entries are durably readable and share the genesis anchor.
    let b0 = s.get_block(0).unwrap();
    let b1 = s.get_block(1).unwrap();
    assert_eq!(b0.previous_hash, vec![0u8; 32]);
    assert_eq!(b1.previous_hash, vec![0u8; 32]);
    assert_eq!(b0.data.kind, Kind::Add);
    assert_eq!(b0.data.memo, bv(b"first"));
    assert_eq!(b1.data.memo, bv(b"second"));
    assert!(!b0.certificate.is_empty());
    assert_eq!(b0.certificate, b1.certificate);
}

#[test]
fn commit_of_empty_batch_is_a_noop() {
    let mut s = fresh();
    assert_eq!(s.commit(&admin(), vec![1, 2, 3]), Ok(None));
    assert_eq!(s.length(), 0);
}

#[test]
fn stale_certificate_is_rejected() {
    let mut s = fresh();
    s.add(&admin(), vec![bv(b"a")], bv(b"m")).unwrap();
    let token = s.certified_data();
    // A further proposal invalidates the earlier root.
    s.add(&admin(), vec![bv(b"b")], bv(b"m2")).unwrap();
    let stale = build_certificate(&canister_id(), &token);
    assert_eq!(s.commit(&admin(), stale), Err(Error::CertificateMismatch));
    // Garbage does not parse.
    assert_eq!(s.commit(&admin(), bv(b"nonsense")), Err(Error::CertificateMismatch));
    // A certificate for some other service does not apply.
    let foreign = build_certificate(b"other-id", &s.certified_data());
    assert_eq!(s.commit(&admin(), foreign), Err(Error::CertificateMismatch));
    assert_eq!(s.get_pending(), 2);
    assert_eq!(s.length(), 2);
    // The fresh certificate then commits the whole batch.
    let len = commit_current(&mut s);
    assert_eq!(len, 2);
    assert_eq!(s.get_pending(), 0);
}

#[test]
fn hash_chain_links_batches() {
    let mut s = fresh();
    s.add(&admin(), vec![bv(b"a")], bv(b"one")).unwrap();
    commit_current(&mut s);
    s.add(&admin(), vec![bv(b"b")], bv(b"two")).unwrap();
    s.add(&admin(), vec![bv(b"c")], bv(b"three")).unwrap();
    commit_current(&mut s);
    let b0 = s.get_block(0).unwrap();
    let b1 = s.get_block(1).unwrap();
    let b2 = s.get_block(2).unwrap();
    assert_eq!(b0.previous_hash, vec![0u8; 32]);
    let h0: [u8; 32] = sha2::Sha256::digest(&encode_block(&b0)).into();
    assert_eq!(b1.previous_hash, h0.to_vec());
    // Entries of one batch share their anchor.
    assert_eq!(b2.previous_hash, h0.to_vec());
    // And the exposed tail hash now covers the last entry.
    let h2: [u8; 32] = sha2::Sha256::digest(&encode_block(&b2)).into();
    assert_eq!(s.get_previous_hash(), h2);
}

#[test]
fn configured_genesis_anchors_the_chain() {
    let genesis = "ab".repeat(32);
    let mut s = init(admin(), canister_id(), Some(genesis));
    s.add(&admin(), vec![bv(b"a")], bv(b"m")).unwrap();
    commit_current(&mut s);
    assert_eq!(s.get_block(0).unwrap().previous_hash, vec![0xabu8; 32]);
    // A malformed or wrongly sized hex string falls back to all zeroes.
    let mut s2 = init(admin(), canister_id(), Some("zz".repeat(32)));
    s2.add(&admin(), vec![bv(b"a")], bv(b"m")).unwrap();
    commit_current(&mut s2);
    assert_eq!(s2.get_block(0).unwrap().previous_hash, vec![0u8; 32]);
    let mut s3 = init(admin(), canister_id(), Some("abcd".into()));
    s3.add(&admin(), vec![bv(b"a")], bv(b"m")).unwrap();
    commit_current(&mut s3);
    assert_eq!(s3.get_block(0).unwrap().previous_hash, vec![0u8; 32]);
}

#[test]
fn certified_root_matches_independent_computation() {
    let mut s = fresh();
    let jurors = vec![bv(b"a"), bv(b"b")];
    s.add(&admin(), jurors.clone(), bv(b"memo")).unwrap();
    let token = s.certified_data();
    // Rebuild the certification tree with the map crate directly.
    let data = Data {
        kind: Kind::Add,
        jurors,
        rand: None,
        jurors_index: 0,
        memo: bv(b"memo"),
    };
    let leaf: [u8; 32] = sha2::Sha256::digest(&encode_data(&data)).into();
    let mut tree: ic_certified_map::RbTree<Vec<u8>, ic_certified_map::Hash> =
        ic_certified_map::RbTree::new();
    tree.insert(0u32.to_be_bytes().to_vec(), leaf);
    tree.insert(b"previous_hash".to_vec(), [0u8; 32]);
    let expected = ic_certified_map::labeled_hash(b"jury_blocks", &tree.root_hash());
    assert_eq!(token, expected.to_vec());
}

#[test]
fn ledger_entry_encoding_roundtrips() {
    let block = Block {
        certificate: bv(b"certificate-bytes"),
        tree: bv(b"witness"),
        data: Data {
            kind: Kind::Select,
            jurors: vec![bv(b"x"), Vec::new(), bv(b"yy")],
            rand: Some(vec![3u8; 32]),
            jurors_index: 9,
            memo: Vec::new(),
        },
        previous_hash: vec![5u8; 32],
    };
    let encoded = encode_block(&block);
    let (decoded, used) = decode_block(&encoded, 0).unwrap();
    assert_eq!(decoded, block);
    assert_eq!(used, encoded.len());
    let d = Data {
        kind: Kind::Remove,
        jurors: Vec::new(),
        rand: None,
        jurors_index: 0,
        memo: bv(b"note"),
    };
    let de = encode_data(&d);
    let (dd, dused) = decode_data(&de, 0).unwrap();
    assert_eq!(dd, d);
    assert_eq!(dused, de.len());
    // Truncated input is refused rather than misread.
    assert!(decode_block(&encoded[..encoded.len() - 1].to_vec(), 0).is_none());
}

#[test]
fn find_locates_last_mentions_in_the_pool() {
    let mut s = fresh();
    let a = bv(b"alice");
    let b = bv(b"bob");
    let c = bv(b"carol");
    s.add(&admin(), vec![a.clone(), b.clone(), c.clone()], bv(b"m")).unwrap();
    let mut pool = vec![a.clone(), b.clone(), c.clone()];
    pool.sort();
    let asked = vec![b.clone(), bv(b"stranger"), b.clone(), a.clone()];
    let found = s.find(0, asked);
    let pos_of = |x: &Vec<u8>| pool.iter().position(|p| p == x).unwrap() as u32;
    assert_eq!(found, vec![None, None, Some(pos_of(&b)), Some(pos_of(&a))]);
}

#[test]
fn queries_reject_positions_beyond_the_ledger() {
    let mut s = fresh();
    assert_eq!(s.get_block(0), Err(Error::NotFound));
    assert_eq!(s.get_jurors(0), Err(Error::NotFound));
    assert_eq!(s.get_size(0), Err(Error::NotFound));
    s.add(&admin(), vec![bv(b"a")], bv(b"m")).unwrap();
    assert_eq!(s.get_size(0), Ok(1));
    assert_eq!(s.get_jurors(0), Ok(vec![bv(b"a")]));
    assert_eq!(s.get_pool(0, 0, 2), Err(Error::NotFound));
    assert_eq!(s.get_pool(0, 0, 1), Ok(vec![bv(b"a")]));
}

#[test]
fn certificate_token_only_with_pending_work() {
    let mut s = fresh();
    let host_cert = Some(bv(b"host-certificate"));
    assert_eq!(s.get_certificate(host_cert.clone()), None);
    s.add(&admin(), vec![bv(b"a")], bv(b"m")).unwrap();
    assert_eq!(s.get_certificate(host_cert.clone()), host_cert);
}

#[test]
fn push_pending_extends_the_position_space() {
    let mut s = fresh();
    let d = Data {
        kind: Kind::Add,
        jurors: vec![bv(b"a")],
        rand: None,
        jurors_index: 0,
        memo: bv(b"raw event"),
    };
    s.push_pending(&d);
    assert_eq!(s.length(), 1);
    assert_eq!(s.get_pending(), 1);
    assert_eq!(s.get_block(0).unwrap().data, d);
}

#[test]
fn zero_sized_selections_always_succeed() {
    let mut s = fresh();
    // From an empty pool, zero participants can be drawn; one cannot.
    assert_eq!(s.make_jury(0, 0, &vec![1u8; 32]), Ok(Vec::new()));
    assert_eq!(s.make_jury(0, 1, &vec![1u8; 32]), Err(Error::Sampling));
    let pos = s.select(&admin(), 0, 0, vec![1u8; 32], bv(b"empty pick")).unwrap();
    assert_eq!(s.get_jurors(pos), Ok(Vec::new()));
}

#[test]
fn pool_windows_partition_the_pool() {
    let mut s = fresh();
    let names: Vec<Vec<u8>> = (0..4).map(|i| vec![b'w', b'0' + i]).collect();
    s.add(&admin(), names.clone(), bv(b"m")).unwrap();
    let head = s.get_pool(0, 0, 2).unwrap();
    let tail = s.get_pool(0, 2, 2).unwrap();
    let mut joined = head.clone();
    joined.extend(tail);
    assert_eq!(joined, s.collect_pool(0));
}
