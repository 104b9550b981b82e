use vstd::prelude::*;

verus! {

/// A 32-byte block digest.
pub type Digest = [u8; 32];

/// A 16-byte puzzle-commitment (DAG merkle) root.
pub type Root = [u8; 16];

/// An external-chain block header, reduced to what the bridge reads.
#[derive(Clone, Copy, Debug)]
pub struct Header {
    pub hash: Digest,
    pub parent_hash: Digest,
    pub number: u64,
    /// The difficulty that this header itself declares.
    pub difficulty: u128,
    /// Cumulative difficulty from genesis, this header included.
    pub total_difficulty: u128,
}

/// Minimal information about a header.
#[derive(Clone, Copy, Debug)]
pub struct HeaderInfo {
    pub total_difficulty: u128,
    pub parent_hash: Digest,
    pub number: u64,
}

impl Header {
    pub open spec fn info_spec(&self) -> HeaderInfo {
        HeaderInfo {
            total_difficulty: self.total_difficulty,
            parent_hash: self.parent_hash,
            number: self.number,
        }
    }

    /// The minimal projection of this header.
    pub fn info(&self) -> (r: HeaderInfo)
        ensures
            r == self.info_spec(),
    {
        HeaderInfo {
            total_difficulty: self.total_difficulty,
            parent_hash: self.parent_hash,
            number: self.number,
        }
    }
}

/// Compares two digests byte by byte.
pub fn hash_eq(a: &Digest, b: &Digest) -> (r: bool)
    ensures
        r == (*a == *b),
{
    let mut i: usize = 0;
    while i < 32
        invariant
            0 <= i <= 32,
            forall|j: int| 0 <= j < i ==> a[j] == b[j],
        decreases 32 - i,
    {
        if a[i] != b[i] {
            return false;
        }
        i = i + 1;
    }
    proof {
        assert(*a =~= *b);
    }
    true
}

/// What decoding a genesis payload yields: a header, or nothing where the
/// payload is not a well-formed header whose number fits in 64 bits and whose
/// difficulty fits in 128 bits.
pub uninterp spec fn rlp_genesis(payload: Seq<u8>) -> Option<Header>;

/// Relies on `rlp::decode` into `ethereum::Header`, on `ethereum::Header::hash`
/// for its digest, and on uint's `TryFrom<U256>` for `u64` and `u128`. The
/// genesis counts its own difficulty as its cumulative difficulty.
#[verifier::external_body]
pub(crate) fn decode_genesis(payload: &[u8]) -> (r: Option<Header>)
    ensures
        r == rlp_genesis(payload@),
        r matches Some(h) ==> h.total_difficulty == h.difficulty,
{
    let h: ethereum::Header = rlp::decode(payload).ok()?;
    let difficulty = u128::try_from(h.difficulty).ok()?;
    let number = u64::try_from(h.number).ok()?;
    Some(Header {
        hash: h.hash().0,
        parent_hash: h.parent_hash.0,
        number,
        difficulty,
        total_difficulty: difficulty,
    })
}

} // verus!
