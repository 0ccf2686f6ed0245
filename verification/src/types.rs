//! The ledger's data model: events, ledger entries, and the errors the entry
//! points surface.
use vstd::prelude::*;

verus! {

/// What an event does: changes membership, or records a drawn selection.
#[derive(Clone, Copy, Debug, PartialEq, Eq, Structural)]
pub enum Kind {
    Add,
    Remove,
    Select,
    Expand,
}

/// One proposed event. For selections, `rand` holds the 32-byte seed the
/// draw was made with, so the selection can be reproduced and expanded.
#[derive(Clone, Debug, PartialEq, Eq)]
pub struct Data {
    pub kind: Kind,
    pub jurors: Vec<Vec<u8>>,
    pub rand: Option<Vec<u8>>,
    pub jurors_index: u32,
    pub memo: Vec<u8>,
}

/// The mathematical value of a `Data`.
#[verifier::ext_equal]
pub struct DataModel {
    pub kind: Kind,
    pub jurors: Seq<Seq<u8>>,
    pub rand: Option<Seq<u8>>,
    pub jurors_index: u32,
    pub memo: Seq<u8>,
}

impl View for Data {
    type V = DataModel;

    open spec fn view(&self) -> DataModel {
        DataModel {
            kind: self.kind,
            jurors: self.jurors@.map_values(|j: Vec<u8>| j@),
            rand: match self.rand {
                Option::Some(v) => Option::Some(v@),
                Option::None => Option::None,
            },
            jurors_index: self.jurors_index,
            memo: self.memo@,
        }
    }
}

/// One committed ledger entry: the certificate and serialized witness it was
/// committed under, the event, and the hash of the ledger tail before its
/// batch.
#[derive(Clone, Debug, PartialEq, Eq)]
pub struct Block {
    pub certificate: Vec<u8>,
    pub tree: Vec<u8>,
    pub data: Data,
    pub previous_hash: Vec<u8>,
}

/// The mathematical value of a `Block`.
#[verifier::ext_equal]
pub struct BlockModel {
    pub certificate: Seq<u8>,
    pub tree: Seq<u8>,
    pub data: DataModel,
    pub previous_hash: Seq<u8>,
}

impl View for Block {
    type V = BlockModel;

    open spec fn view(&self) -> BlockModel {
        BlockModel {
            certificate: self.certificate@,
            tree: self.tree@,
            data: self.data@,
            previous_hash: self.previous_hash@,
        }
    }
}

/// Why an entry point refused to act.
#[derive(Clone, Copy, Debug, PartialEq, Eq, Structural)]
pub enum Error {
    /// The caller is not on the allowlist; nothing changed.
    NotAuthorized,
    /// An addition would push a juror's history past its bound; nothing
    /// changed.
    Capacity,
    /// More jurors were requested than the pool holds (or the draw budget
    /// was exhausted); nothing changed.
    Sampling,
    /// The certificate could not be parsed, or the value it certifies is not
    /// the root of the current pending batch; nothing changed.
    CertificateMismatch,
    /// A referenced ledger position or entry does not exist.
    NotFound,
    /// The randomness handed to a selection was not the 32 bytes the beacon
    /// promises; the selection was abandoned.
    Beacon,
}

impl Data {
    /// An empty Add event; fields are filled in by the entry points.
    pub fn empty() -> (r: Data)
        ensures
            r@.kind == Kind::Add,
            r@.jurors == Seq::<Seq<u8>>::empty(),
            r@.rand is None,
            r@.jurors_index == 0,
            r@.memo == Seq::<u8>::empty(),
    {
        let r = Data {
            kind: Kind::Add,
            jurors: Vec::new(),
            rand: Option::None,
            jurors_index: 0,
            memo: Vec::new(),
        };
        proof {
            assert(r@.jurors =~= Seq::<Seq<u8>>::empty());
        }
        r
    }
}

/// A deep copy of an event.
pub fn clone_data(d: &Data) -> (r: Data)
    ensures
        r@ == d@,
{
    let r = Data {
        kind: d.kind,
        jurors: crate::bytes::clone_blobs(&d.jurors),
        rand: match &d.rand {
            Option::Some(v) => Option::Some(crate::bytes::clone_bytes(v)),
            Option::None => Option::None,
        },
        jurors_index: d.jurors_index,
        memo: crate::bytes::clone_bytes(&d.memo),
    };
    proof {
        assert(r@.jurors =~= d@.jurors);
        assert(r@ =~= d@);
    }
    r
}

/// A deep copy of a ledger entry.
pub fn clone_block(b: &Block) -> (r: Block)
    ensures
        r@ == b@,
{
    let r = Block {
        certificate: crate::bytes::clone_bytes(&b.certificate),
        tree: crate::bytes::clone_bytes(&b.tree),
        data: clone_data(&b.data),
        previous_hash: crate::bytes::clone_bytes(&b.previous_hash),
    };
    proof {
        assert(r@ =~= b@);
    }
    r
}

} // verus!
