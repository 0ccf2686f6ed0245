//! The canonical byte encoding of events and ledger entries. It is what gets
//! hashed into the certification tree and into the chain of tail hashes, so
//! it must be deterministic; decoding an encoded value gives the value back,
//! which is proved below. Variable-length fields carry a 64-bit
//! little-endian length prefix.
use vstd::prelude::*;
use crate::bytes::{le32_bytes, le64_bytes, le32_val, le64_val, push_le32, push_le64, read_le32,
    read_le64, lemma_le32_roundtrip, lemma_le64_roundtrip};
use crate::types::{Kind, Data, DataModel, Block, BlockModel};

verus! {

pub open spec fn kind_byte(k: Kind) -> u8 {
    match k {
        Kind::Add => 0u8,
        Kind::Remove => 1u8,
        Kind::Select => 2u8,
        Kind::Expand => 3u8,
    }
}

/// A length-prefixed byte string.
pub open spec fn enc_bytes(b: Seq<u8>) -> Seq<u8> {
    le64_bytes(b.len() as u64) + b
}

/// The concatenation of length-prefixed byte strings.
pub open spec fn enc_cat(js: Seq<Seq<u8>>) -> Seq<u8>
    decreases js.len(),
{
    if js.len() == 0 {
        Seq::empty()
    } else {
        enc_bytes(js[0]) + enc_cat(js.skip(1))
    }
}

/// An optional length-prefixed byte string, behind a presence byte.
pub open spec fn enc_opt(o: Option<Seq<u8>>) -> Seq<u8> {
    match o {
        Option::None => seq![0u8],
        Option::Some(b) => seq![1u8] + enc_bytes(b),
    }
}

/// The canonical encoding of an event.
pub open spec fn enc_data(d: DataModel) -> Seq<u8> {
    seq![kind_byte(d.kind)] + le64_bytes(d.jurors.len() as u64) + enc_cat(d.jurors) + enc_opt(
        d.rand,
    ) + le32_bytes(d.jurors_index) + enc_bytes(d.memo)
}

/// The canonical encoding of a ledger entry; the tail hash is fixed-width.
pub open spec fn enc_block(b: BlockModel) -> Seq<u8> {
    enc_bytes(b.certificate) + enc_bytes(b.tree) + enc_data(b.data) + b.previous_hash
}

/// Appends a copy of `b` to `out`.
pub fn append_bytes(out: &mut Vec<u8>, b: &Vec<u8>)
    ensures
        final(out)@ == old(out)@ + b@,
{
    let n = b.len();
    let mut i: usize = 0;
    while i < n
        invariant
            n == b@.len(),
            0 <= i <= n,
            out@ == old(out)@ + b@.take(i as int),
        decreases n - i,
    {
        out.push(b[i]);
        proof {
            assert(old(out)@ + b@.take(i + 1) =~= (old(out)@ + b@.take(i as int)).push(b@[i as int]));
        }
        i = i + 1;
    }
    proof {
        assert(old(out)@ + b@.take(n as int) =~= old(out)@ + b@);
    }
}

/// Appends the length-prefixed encoding of `b` to `out`.
pub fn append_enc_bytes(out: &mut Vec<u8>, b: &Vec<u8>)
    ensures
        final(out)@ == old(out)@ + enc_bytes(b@),
{
    push_le64(out, b.len() as u64);
    append_bytes(out, b);
    proof {
        assert(old(out)@ + le64_bytes(b@.len() as u64) + b@ =~= old(out)@ + enc_bytes(b@));
    }
}

proof fn lemma_enc_cat_push(js: Seq<Seq<u8>>, x: Seq<u8>)
    ensures
        enc_cat(js.push(x)) == enc_cat(js) + enc_bytes(x),
    decreases js.len(),
{
    let p = js.push(x);
    if js.len() == 0 {
        assert(p[0] == x);
        assert(p.skip(1) =~= Seq::<Seq<u8>>::empty());
        assert(enc_cat(p) == enc_bytes(x) + enc_cat(p.skip(1)));
        vstd::seq_lib::lemma_concat_associative(
            Seq::<u8>::empty(),
            enc_bytes(x),
            Seq::<u8>::empty(),
        );
        assert(enc_bytes(x) + Seq::<u8>::empty() =~= enc_bytes(x));
        assert(Seq::<u8>::empty() + enc_bytes(x) =~= enc_bytes(x));
    } else {
        lemma_enc_cat_push(js.skip(1), x);
        assert(p.skip(1) =~= js.skip(1).push(x));
        assert(p[0] == js[0]);
        assert(enc_cat(p) == enc_bytes(js[0]) + (enc_cat(js.skip(1)) + enc_bytes(x)));
        vstd::seq_lib::lemma_concat_associative(
            enc_bytes(js[0]),
            enc_cat(js.skip(1)),
            enc_bytes(x),
        );
    }
}

/// The canonical encoding of an event, as stored and hashed.
pub fn encode_data(d: &Data) -> (r: Vec<u8>)
    ensures
        r@ == enc_data(d@),
{
    let mut out: Vec<u8> = Vec::new();
    let kb: u8 = match d.kind {
        Kind::Add => 0u8,
        Kind::Remove => 1u8,
        Kind::Select => 2u8,
        Kind::Expand => 3u8,
    };
    out.push(kb);
    push_le64(&mut out, d.jurors.len() as u64);
    proof {
        assert(out@ =~= seq![kind_byte(d@.kind)] + le64_bytes(d@.jurors.len() as u64));
    }
    let ghost base = out@;
    let n = d.jurors.len();
    let mut i: usize = 0;
    while i < n
        invariant
            n == d.jurors@.len(),
            d@.jurors.len() == n,
            0 <= i <= n,
            forall|j: int| 0 <= j < n ==> d@.jurors[j] == d.jurors@[j]@,
            out@ == base + enc_cat(d@.jurors.take(i as int)),
        decreases n - i,
    {
        append_enc_bytes(&mut out, &d.jurors[i]);
        proof {
            assert(d@.jurors.take(i + 1) =~= d@.jurors.take(i as int).push(d@.jurors[i as int]));
            lemma_enc_cat_push(d@.jurors.take(i as int), d@.jurors[i as int]);
            assert(out@ =~= base + enc_cat(d@.jurors.take(i + 1)));
        }
        i = i + 1;
    }
    proof {
        assert(d@.jurors.take(n as int) =~= d@.jurors);
    }
    match &d.rand {
        Option::Some(v) => {
            out.push(1u8);
            append_enc_bytes(&mut out, v);
            proof {
                assert(out@ =~= base + enc_cat(d@.jurors) + enc_opt(d@.rand));
            }
        },
        Option::None => {
            out.push(0u8);
            proof {
                assert(out@ =~= base + enc_cat(d@.jurors) + enc_opt(d@.rand));
            }
        },
    }
    push_le32(&mut out, d.jurors_index);
    append_enc_bytes(&mut out, &d.memo);
    proof {
        assert(out@ =~= enc_data(d@));
    }
    out
}

/// The canonical encoding of a ledger entry.
pub fn encode_block(b: &Block) -> (r: Vec<u8>)
    ensures
        r@ == enc_block(b@),
{
    let mut out: Vec<u8> = Vec::new();
    append_enc_bytes(&mut out, &b.certificate);
    append_enc_bytes(&mut out, &b.tree);
    let d = encode_data(&b.data);
    append_bytes(&mut out, &d);
    append_bytes(&mut out, &b.previous_hash);
    proof {
        assert(out@ =~= enc_block(b@));
    }
    out
}

// ---------------------------------------------------------------------------
// Decoding.
pub open spec fn dec_u64(s: Seq<u8>, pos: int) -> Option<(u64, int)> {
    if 0 <= pos && pos + 8 <= s.len() {
        Option::Some((le64_val(s.subrange(pos, pos + 8)), pos + 8))
    } else {
        Option::None
    }
}

pub open spec fn dec_u32(s: Seq<u8>, pos: int) -> Option<(u32, int)> {
    if 0 <= pos && pos + 4 <= s.len() {
        Option::Some((le32_val(s.subrange(pos, pos + 4)), pos + 4))
    } else {
        Option::None
    }
}

pub open spec fn dec_bytes(s: Seq<u8>, pos: int) -> Option<(Seq<u8>, int)> {
    match dec_u64(s, pos) {
        Option::None => Option::None,
        Option::Some((n, p)) => if p + n <= s.len() {
            Option::Some((s.subrange(p, p + n), p + n))
        } else {
            Option::None
        },
    }
}

pub open spec fn dec_cat(s: Seq<u8>, pos: int, count: nat) -> Option<(Seq<Seq<u8>>, int)>
    decreases count,
{
    if count == 0 {
        Option::Some((Seq::empty(), pos))
    } else {
        match dec_bytes(s, pos) {
            Option::None => Option::None,
            Option::Some((b, p)) => match dec_cat(s, p, (count - 1) as nat) {
                Option::None => Option::None,
                Option::Some((bs, e)) => Option::Some((seq![b] + bs, e)),
            },
        }
    }
}

pub open spec fn dec_opt(s: Seq<u8>, pos: int) -> Option<(Option<Seq<u8>>, int)> {
    if 0 <= pos && pos + 1 <= s.len() {
        if s[pos] == 0u8 {
            Option::Some((Option::None, pos + 1))
        } else if s[pos] == 1u8 {
            match dec_bytes(s, pos + 1) {
                Option::None => Option::None,
                Option::Some((b, p)) => Option::Some((Option::Some(b), p)),
            }
        } else {
            Option::None
        }
    } else {
        Option::None
    }
}

pub open spec fn dec_kind(s: Seq<u8>, pos: int) -> Option<(Kind, int)> {
    if 0 <= pos && pos + 1 <= s.len() {
        if s[pos] == 0u8 {
            Option::Some((Kind::Add, pos + 1))
        } else if s[pos] == 1u8 {
            Option::Some((Kind::Remove, pos + 1))
        } else if s[pos] == 2u8 {
            Option::Some((Kind::Select, pos + 1))
        } else if s[pos] == 3u8 {
            Option::Some((Kind::Expand, pos + 1))
        } else {
            Option::None
        }
    } else {
        Option::None
    }
}

pub open spec fn dec_data(s: Seq<u8>, pos: int) -> Option<(DataModel, int)> {
    match dec_kind(s, pos) {
        Option::None => Option::None,
        Option::Some((k, p1)) => match dec_u64(s, p1) {
            Option::None => Option::None,
            Option::Some((n, p2)) => match dec_cat(s, p2, n as nat) {
                Option::None => Option::None,
                Option::Some((js, p3)) => match dec_opt(s, p3) {
                    Option::None => Option::None,
                    Option::Some((o, p4)) => match dec_u32(s, p4) {
                        Option::None => Option::None,
                        Option::Some((ji, p5)) => match dec_bytes(s, p5) {
                            Option::None => Option::None,
                            Option::Some((m, p6)) => Option::Some(
                                (
                                    DataModel {
                                        kind: k,
                                        jurors: js,
                                        rand: o,
                                        jurors_index: ji,
                                        memo: m,
                                    },
                                    p6,
                                ),
                            ),
                        },
                    },
                },
            },
        },
    }
}

pub open spec fn dec_block(s: Seq<u8>, pos: int) -> Option<(BlockModel, int)> {
    match dec_bytes(s, pos) {
        Option::None => Option::None,
        Option::Some((c, p1)) => match dec_bytes(s, p1) {
            Option::None => Option::None,
            Option::Some((t, p2)) => match dec_data(s, p2) {
                Option::None => Option::None,
                Option::Some((d, p3)) => if p3 + 32 <= s.len() {
                    Option::Some(
                        (
                            BlockModel {
                                certificate: c,
                                tree: t,
                                data: d,
                                previous_hash: s.subrange(p3, p3 + 32),
                            },
                            p3 + 32,
                        ),
                    )
                } else {
                    Option::None
                },
            },
        },
    }
}

/// Copies `src[a..b]`.
pub fn copy_range(src: &Vec<u8>, a: usize, b: usize) -> (r: Vec<u8>)
    requires
        a <= b <= src@.len(),
    ensures
        r@ == src@.subrange(a as int, b as int),
{
    let mut r: Vec<u8> = Vec::new();
    let mut i: usize = a;
    while i < b
        invariant
            a <= i <= b <= src@.len(),
            r@ == src@.subrange(a as int, i as int),
        decreases b - i,
    {
        r.push(src[i]);
        proof {
            assert(src@.subrange(a as int, i + 1) =~= src@.subrange(a as int, i as int).push(
                src@[i as int],
            ));
        }
        i = i + 1;
    }
    r
}

/// Reads a length-prefixed byte string.
pub fn decode_bytes(src: &Vec<u8>, pos: usize) -> (r: Option<(Vec<u8>, usize)>)
    requires
        pos <= src@.len(),
    ensures
        r matches Some(p) ==> dec_bytes(src@, pos as int) == Some((p.0@, p.1 as int)) && pos <= p.1
            <= src@.len(),
        r is None ==> dec_bytes(src@, pos as int) is None,
{
    let len = src.len();
    if len - pos < 8 {
        return Option::None;
    }
    let n = read_le64(src, pos);
    let p = pos + 8;
    if n > (len - p) as u64 {
        return Option::None;
    }
    let e = p + (n as usize);
    let v = copy_range(src, p, e);
    Option::Some((v, e))
}

/// Reads `count` length-prefixed byte strings.
pub fn decode_cat(src: &Vec<u8>, pos: usize, count: u64) -> (r: Option<(Vec<Vec<u8>>, usize)>)
    requires
        pos <= src@.len(),
    ensures
        r matches Some(p) ==> dec_cat(src@, pos as int, count as nat) == Some(
            (p.0@.map_values(|j: Vec<u8>| j@), p.1 as int),
        ) && pos <= p.1 <= src@.len(),
        r is None ==> dec_cat(src@, pos as int, count as nat) is None,
    decreases count,
{
    if count == 0 {
        let empty: Vec<Vec<u8>> = Vec::new();
        proof {
            assert(empty@.map_values(|j: Vec<u8>| j@) =~= Seq::<Seq<u8>>::empty());
        }
        return Option::Some((empty, pos));
    }
    match decode_bytes(src, pos) {
        Option::None => Option::None,
        Option::Some((b, p)) => {
            match decode_cat(src, p, count - 1) {
                Option::None => Option::None,
                Option::Some((mut bs, e)) => {
                    let ghost pre = bs@;
                    let ghost bview = b@;
                    bs.insert(0, b);
                    proof {
                        assert(bs@.map_values(|j: Vec<u8>| j@) =~= seq![bview]
                            + pre.map_values(|j: Vec<u8>| j@));
                    }
                    Option::Some((bs, e))
                },
            }
        },
    }
}

/// Reads an optional length-prefixed byte string.
pub fn decode_opt(src: &Vec<u8>, pos: usize) -> (r: Option<(Option<Vec<u8>>, usize)>)
    requires
        pos <= src@.len(),
    ensures
        r matches Some(p) ==> ({
            let m = match p.0 {
                Option::Some(v) => Option::Some(v@),
                Option::None => Option::None,
            };
            dec_opt(src@, pos as int) == Some((m, p.1 as int)) && pos <= p.1 <= src@.len()
        }),
        r is None ==> dec_opt(src@, pos as int) is None,
{
    let len = src.len();
    if len - pos < 1 {
        return Option::None;
    }
    let tag = src[pos];
    if tag == 0 {
        Option::Some((Option::None, pos + 1))
    } else if tag == 1 {
        match decode_bytes(src, pos + 1) {
            Option::None => Option::None,
            Option::Some((v, e)) => Option::Some((Option::Some(v), e)),
        }
    } else {
        Option::None
    }
}

/// Decodes an event at `pos`.
pub fn decode_data(src: &Vec<u8>, pos: usize) -> (r: Option<(Data, usize)>)
    requires
        pos <= src@.len(),
    ensures
        r matches Some(p) ==> dec_data(src@, pos as int) == Some((p.0@, p.1 as int)) && pos <= p.1
            <= src@.len(),
        r is None ==> dec_data(src@, pos as int) is None,
{
    let len = src.len();
    if len - pos < 1 {
        return Option::None;
    }
    let kb = src[pos];
    let kind = if kb == 0 {
        Kind::Add
    } else if kb == 1 {
        Kind::Remove
    } else if kb == 2 {
        Kind::Select
    } else if kb == 3 {
        Kind::Expand
    } else {
        return Option::None;
    };
    let p1 = pos + 1;
    if len - p1 < 8 {
        return Option::None;
    }
    let n = read_le64(src, p1);
    let p2 = p1 + 8;
    match decode_cat(src, p2, n) {
        Option::None => Option::None,
        Option::Some((jurors, p3)) => {
            match decode_opt(src, p3) {
                Option::None => Option::None,
                Option::Some((rand, p4)) => {
                    if len - p4 < 4 {
                        return Option::None;
                    }
                    let ji = read_le32(src, p4);
                    let p5 = p4 + 4;
                    match decode_bytes(src, p5) {
                        Option::None => Option::None,
                        Option::Some((memo, p6)) => {
                            let d = Data { kind, jurors, rand, jurors_index: ji, memo };
                            proof {
                                assert(dec_data(src@, pos as int) == Some((d@, p6 as int)));
                            }
                            Option::Some((d, p6))
                        },
                    }
                },
            }
        },
    }
}

/// Decodes a ledger entry at `pos`.
pub fn decode_block(src: &Vec<u8>, pos: usize) -> (r: Option<(Block, usize)>)
    requires
        pos <= src@.len(),
    ensures
        r matches Some(p) ==> dec_block(src@, pos as int) == Some((p.0@, p.1 as int)) && pos <= p.1
            <= src@.len(),
        r is None ==> dec_block(src@, pos as int) is None,
{
    match decode_bytes(src, pos) {
        Option::None => Option::None,
        Option::Some((certificate, p1)) => {
            match decode_bytes(src, p1) {
                Option::None => Option::None,
                Option::Some((tree, p2)) => {
                    match decode_data(src, p2) {
                        Option::None => Option::None,
                        Option::Some((data, p3)) => {
                            let len = src.len();
                            if len - p3 < 32 {
                                return Option::None;
                            }
                            let previous_hash = copy_range(src, p3, p3 + 32);
                            let b = Block { certificate, tree, data, previous_hash };
                            proof {
                                assert(dec_block(src@, pos as int) == Some((b@, p3 as int + 32)));
                            }
                            Option::Some((b, p3 + 32))
                        },
                    }
                },
            }
        },
    }
}

} // verus!
// The round-trip argument: decoding reads back exactly what encoding wrote.
verus! {

/// `c` is the content of `s` at `pos`.
pub open spec fn chunk_at(s: Seq<u8>, pos: int, c: Seq<u8>) -> bool {
    0 <= pos && pos + c.len() <= s.len() && s.subrange(pos, pos + c.len()) == c
}

proof fn lemma_chunk_split(s: Seq<u8>, pos: int, a: Seq<u8>, b: Seq<u8>)
    requires
        chunk_at(s, pos, a + b),
    ensures
        chunk_at(s, pos, a),
        chunk_at(s, pos + a.len(), b),
{
    assert(s.subrange(pos, pos + a.len()) =~= (a + b).subrange(0, a.len() as int));
    assert((a + b).subrange(0, a.len() as int) =~= a);
    assert(s.subrange(pos + a.len(), pos + a.len() + b.len()) =~= (a + b).subrange(
        a.len() as int,
        (a.len() + b.len()) as int,
    ));
    assert((a + b).subrange(a.len() as int, (a.len() + b.len()) as int) =~= b);
}

proof fn lemma_dec_u64_at(s: Seq<u8>, pos: int, x: u64)
    requires
        chunk_at(s, pos, le64_bytes(x)),
    ensures
        dec_u64(s, pos) == Some((x, pos + 8)),
{
    assert(s.subrange(pos, pos + 8) =~= le64_bytes(x));
    lemma_le64_roundtrip(x);
}

proof fn lemma_dec_u32_at(s: Seq<u8>, pos: int, x: u32)
    requires
        chunk_at(s, pos, le32_bytes(x)),
    ensures
        dec_u32(s, pos) == Some((x, pos + 4)),
{
    assert(s.subrange(pos, pos + 4) =~= le32_bytes(x));
    lemma_le32_roundtrip(x);
}

proof fn lemma_dec_bytes_at(s: Seq<u8>, pos: int, b: Seq<u8>)
    requires
        chunk_at(s, pos, enc_bytes(b)),
        b.len() <= u64::MAX,
    ensures
        dec_bytes(s, pos) == Some((b, pos + 8 + b.len())),
{
    lemma_chunk_split(s, pos, le64_bytes(b.len() as u64), b);
    lemma_dec_u64_at(s, pos, b.len() as u64);
    assert(s.subrange(pos + 8, pos + 8 + b.len()) =~= b);
}

/// Every byte string of `js` fits its length prefix.
pub open spec fn bounded_cat(js: Seq<Seq<u8>>) -> bool {
    forall|i: int| 0 <= i < js.len() ==> #[trigger] js[i].len() <= u64::MAX
}

proof fn lemma_dec_cat_at(s: Seq<u8>, pos: int, js: Seq<Seq<u8>>)
    requires
        chunk_at(s, pos, enc_cat(js)),
        bounded_cat(js),
    ensures
        dec_cat(s, pos, js.len()) == Some((js, pos + enc_cat(js).len())),
    decreases js.len(),
{
    if js.len() == 0 {
        assert(js =~= Seq::<Seq<u8>>::empty());
    } else {
        lemma_chunk_split(s, pos, enc_bytes(js[0]), enc_cat(js.skip(1)));
        lemma_dec_bytes_at(s, pos, js[0]);
        assert(bounded_cat(js.skip(1)));
        lemma_dec_cat_at(s, pos + enc_bytes(js[0]).len(), js.skip(1));
        assert(seq![js[0]] + js.skip(1) =~= js);
    }
}

proof fn lemma_dec_opt_at(s: Seq<u8>, pos: int, o: Option<Seq<u8>>)
    requires
        chunk_at(s, pos, enc_opt(o)),
        o matches Some(b) ==> b.len() <= u64::MAX,
    ensures
        dec_opt(s, pos) == Some((o, pos + enc_opt(o).len())),
{
    match o {
        Option::None => {
            assert(s.subrange(pos, pos + 1) =~= seq![0u8]);
            assert(s[pos] == s.subrange(pos, pos + 1)[0]);
            assert(s[pos] == 0u8);
        },
        Option::Some(b) => {
            lemma_chunk_split(s, pos, seq![1u8], enc_bytes(b));
            assert(s.subrange(pos, pos + 1) =~= seq![1u8]);
            assert(s[pos] == s.subrange(pos, pos + 1)[0]);
            assert(s[pos] == 1u8);
            lemma_dec_bytes_at(s, pos + 1, b);
        },
    }
}

proof fn lemma_dec_kind_at(s: Seq<u8>, pos: int, k: Kind)
    requires
        chunk_at(s, pos, seq![kind_byte(k)]),
    ensures
        dec_kind(s, pos) == Some((k, pos + 1)),
{
    assert(s.subrange(pos, pos + 1) =~= seq![kind_byte(k)]);
    assert(s[pos] == s.subrange(pos, pos + 1)[0]);
    assert(s[pos] == kind_byte(k));
}

/// Every variable-length field of the event fits its length prefix. All
/// values built from in-memory vectors do.
pub open spec fn bounded_data(d: DataModel) -> bool {
    &&& d.jurors.len() <= u64::MAX
    &&& bounded_cat(d.jurors)
    &&& (d.rand matches Some(b) ==> b.len() <= u64::MAX)
    &&& d.memo.len() <= u64::MAX
}

#[verifier::rlimit(60)]
proof fn lemma_dec_data_at(s: Seq<u8>, pos: int, d: DataModel)
    requires
        chunk_at(s, pos, enc_data(d)),
        bounded_data(d),
    ensures
        dec_data(s, pos) == Some((d, pos + enc_data(d).len())),
{
    let a = seq![kind_byte(d.kind)];
    let b = le64_bytes(d.jurors.len() as u64);
    let c = enc_cat(d.jurors);
    let e = enc_opt(d.rand);
    let f = le32_bytes(d.jurors_index);
    let g = enc_bytes(d.memo);
    assert(enc_data(d) == a + b + c + e + f + g);
    lemma_chunk_split(s, pos, a + b + c + e + f, g);
    lemma_chunk_split(s, pos, a + b + c + e, f);
    lemma_chunk_split(s, pos, a + b + c, e);
    lemma_chunk_split(s, pos, a + b, c);
    lemma_chunk_split(s, pos, a, b);
    let p1 = pos + 1;
    let p2 = p1 + 8;
    let p3 = p2 + c.len();
    let p4 = p3 + e.len();
    let p5 = p4 + 4;
    let p6 = p5 + g.len();
    lemma_dec_kind_at(s, pos, d.kind);
    lemma_dec_u64_at(s, p1, d.jurors.len() as u64);
    lemma_dec_cat_at(s, p2, d.jurors);
    lemma_dec_opt_at(s, p3, d.rand);
    lemma_dec_u32_at(s, p4, d.jurors_index);
    lemma_dec_bytes_at(s, p5, d.memo);
    let r = dec_data(s, pos);
    assert(r is Some);
    assert(r->Some_0.0 =~= d);
    assert(r->Some_0.1 == p6);
}

/// Every variable-length field of the entry fits its length prefix, and the
/// tail hash is the fixed 32 bytes.
pub open spec fn bounded_block(b: BlockModel) -> bool {
    &&& b.certificate.len() <= u64::MAX
    &&& b.tree.len() <= u64::MAX
    &&& bounded_data(b.data)
    &&& b.previous_hash.len() == 32
}

#[verifier::rlimit(100)]
#[verifier::spinoff_prover]
proof fn lemma_dec_block_at(s: Seq<u8>, pos: int, b: BlockModel)
    requires
        chunk_at(s, pos, enc_block(b)),
        bounded_block(b),
    ensures
        dec_block(s, pos) == Some((b, pos + enc_block(b).len())),
{
    let c1 = enc_bytes(b.certificate);
    let c2 = enc_bytes(b.tree);
    let c3 = enc_data(b.data);
    let c4 = b.previous_hash;
    assert(enc_block(b) == c1 + c2 + c3 + c4);
    lemma_chunk_split(s, pos, c1 + c2 + c3, c4);
    lemma_chunk_split(s, pos, c1 + c2, c3);
    lemma_chunk_split(s, pos, c1, c2);
    let p1 = pos + c1.len();
    let p2 = p1 + c2.len();
    let p3 = p2 + c3.len();
    lemma_dec_bytes_at(s, pos, b.certificate);
    lemma_dec_bytes_at(s, p1, b.tree);
    lemma_dec_data_at(s, p2, b.data);
    assert(s.subrange(p3, p3 + 32) =~= b.previous_hash);
    let r = dec_block(s, pos);
    assert(r is Some);
    assert(r->Some_0.0 =~= b);
}

/// Round trip: decoding the canonical encoding of any ledger entry yields
/// that entry, consuming the whole encoding.
#[verifier::rlimit(100)]
pub proof fn lemma_block_roundtrip(b: BlockModel)
    requires
        bounded_block(b),
    ensures
        dec_block(enc_block(b), 0) == Some((b, enc_block(b).len() as int)),
{
    assert(enc_block(b).subrange(0, enc_block(b).len() as int) =~= enc_block(b));
    lemma_dec_block_at(enc_block(b), 0, b);
}

/// Round trip for a bare event, as hashed into the certification tree.
pub proof fn lemma_data_roundtrip(d: DataModel)
    requires
        bounded_data(d),
    ensures
        dec_data(enc_data(d), 0) == Some((d, enc_data(d).len() as int)),
{
    assert(enc_data(d).subrange(0, enc_data(d).len() as int) =~= enc_data(d));
    lemma_dec_data_at(enc_data(d), 0, d);
}

} // verus!
