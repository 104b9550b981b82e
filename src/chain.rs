use vstd::prelude::*;
use crate::header::{decode_genesis, hash_eq, rlp_genesis, Digest, Header, HeaderInfo, Root};

verus! {

/// An identity that submits headers.
pub type AccountId = [u8; 32];

/// Blocks per puzzle epoch of the external chain.
pub const EPOCH_LENGTH: u64 = 30000;

/// Why a one-time initialisation was refused.
#[derive(Clone, Copy, Debug, PartialEq, Eq, Structural)]
pub enum InitError {
    AlreadyInitialized,
    MalformedGenesis,
    InvalidThresholds,
}

/// Why a submitted header was refused.
#[derive(Clone, Copy, Debug, PartialEq, Eq, Structural)]
pub enum SubmitError {
    UnknownParent,
    MissingEpochRoot,
    InvalidProof,
    BadDifficulty,
    ReorgTooDeep,
}

/// The bridge's chain state.
///
/// The canonical chain is kept as the headers at the consecutive heights
/// `canonical_start ..`; its last entry is the best header.
pub struct Module {
    dags_start_epoch: Option<u64>,
    dags_merkle_roots: Vec<Root>,
    hashes_gc_threshold: Option<u64>,
    finalized_gc_threshold: Option<u64>,
    num_confirmations: Option<u64>,
    trusted_signer: Option<AccountId>,
    headers: Vec<Header>,
    canonical_start: u64,
    canonical: Vec<Header>,
    gc_floor: u64,
}

pub open spec fn max_int(a: int, b: int) -> int {
    if a >= b { a } else { b }
}

impl Module {
    pub closed spec fn is_init(&self) -> bool {
        self.dags_start_epoch.is_some()
    }

    pub closed spec fn start_epoch(&self) -> int {
        self.dags_start_epoch.unwrap() as int
    }

    pub closed spec fn roots(&self) -> Seq<Root> {
        self.dags_merkle_roots@
    }

    pub closed spec fn hashes_gc(&self) -> int {
        self.hashes_gc_threshold.unwrap() as int
    }

    pub closed spec fn finalized_gc(&self) -> int {
        self.finalized_gc_threshold.unwrap() as int
    }

    pub closed spec fn confirmations(&self) -> int {
        self.num_confirmations.unwrap() as int
    }

    pub closed spec fn trusted(&self) -> Option<AccountId> {
        self.trusted_signer
    }

    /// Every header held, on every fork.
    pub closed spec fn stored(&self) -> Seq<Header> {
        self.headers@
    }

    /// The height of the first canonical entry still kept.
    pub closed spec fn canon_start(&self) -> int {
        self.canonical_start as int
    }

    /// The canonical headers, from `canon_start()` upwards.
    pub closed spec fn canon(&self) -> Seq<Header> {
        self.canonical@
    }

    /// Height below which no header is kept any longer.
    pub closed spec fn floor(&self) -> int {
        self.gc_floor as int
    }

    pub open spec fn best(&self) -> Header {
        self.canon().last()
    }

    pub open spec fn best_number(&self) -> int {
        self.best().number as int
    }

    pub open spec fn best_hash(&self) -> Digest {
        self.best().hash
    }

    /// The canonical hash at height `h`, where one is kept.
    pub open spec fn canonical_hash(&self, h: int) -> Option<Digest> {
        if self.canon_start() <= h < self.canon_start() + self.canon().len() {
            Some(self.canon()[h - self.canon_start()].hash)
        } else {
            None
        }
    }

    pub open spec fn knows(&self, d: Digest) -> bool {
        exists|i: int| 0 <= i < self.stored().len() && self.stored()[i].hash == d
    }

    /// A stored header with digest `d` at height `n`.
    pub open spec fn knows_at(&self, d: Digest, n: int) -> bool {
        exists|i: int| 0 <= i < self.stored().len() && self.stored()[i].hash == d
            && self.stored()[i].number == n
    }

    pub open spec fn header_at(&self, d: Digest, n: int) -> Header {
        let i = choose|i: int| 0 <= i < self.stored().len() && self.stored()[i].hash == d
            && self.stored()[i].number == n;
        self.stored()[i]
    }

    /// Height `h` is canonical and buried under enough confirmations.
    pub open spec fn is_safe_spec(&self, h: int) -> bool {
        self.canonical_hash(h).is_some() && self.best_number() - h >= self.confirmations()
    }

    pub open spec fn unique_hashes(&self) -> bool {
        forall|i: int, j: int|
            0 <= i < self.stored().len() && 0 <= j < self.stored().len()
                && self.stored()[i].hash == self.stored()[j].hash ==> i == j
    }

    /// Canonical entries are stored headers at consecutive heights, each the
    /// child of the one below it.
    pub open spec fn canonical_linked(&self) -> bool {
        &&& forall|k: int| 0 <= k < self.canon().len() ==> self.stored().contains(#[trigger] self.canon()[k])
        &&& forall|k: int| 0 <= k < self.canon().len() ==> #[trigger] self.canon()[k].number == self.canon_start() + k
        &&& forall|k: int| 0 < k < self.canon().len() ==> #[trigger] self.canon()[k].parent_hash == self.canon()[k - 1].hash
    }

    /// Cumulative difficulty strictly grows along the canonical chain.
    pub open spec fn canonical_difficulty_increasing(&self) -> bool {
        forall|k: int| 0 < k < self.canon().len() ==>
            self.canon()[k - 1].total_difficulty < #[trigger] self.canon()[k].total_difficulty
    }

    /// No stored header has more cumulative difficulty than the best one.
    pub open spec fn best_is_maximal(&self) -> bool {
        forall|i: int| 0 <= i < self.stored().len() ==>
            #[trigger] self.stored()[i].total_difficulty <= self.best().total_difficulty
    }

    /// Nothing is kept below the two retention horizons of the best height.
    pub open spec fn gc_horizon_respected(&self) -> bool {
        &&& forall|i: int| 0 <= i < self.stored().len() ==>
            #[trigger] self.stored()[i].number >= self.best_number() - self.finalized_gc()
        &&& self.canon_start() >= self.best_number() - self.hashes_gc()
    }

    /// A child always carries more cumulative difficulty than its parent.
    pub open spec fn parents_lighter(&self) -> bool {
        forall|i: int, j: int|
            0 <= i < self.stored().len() && 0 <= j < self.stored().len()
                && #[trigger] self.stored()[i].parent_hash == #[trigger] self.stored()[j].hash
                && self.stored()[i].number == self.stored()[j].number + 1
                ==> self.stored()[j].total_difficulty < self.stored()[i].total_difficulty
    }

    /// Above the pruning floor, every stored header's parent is stored.
    pub open spec fn parents_kept(&self) -> bool {
        forall|i: int| 0 <= i < self.stored().len() && #[trigger] self.stored()[i].number > self.floor()
            ==> self.knows_at(self.stored()[i].parent_hash, self.stored()[i].number - 1)
    }

    pub closed spec fn thresholds_unset(&self) -> bool {
        self.hashes_gc_threshold.is_none() && self.finalized_gc_threshold.is_none()
    }

    pub closed spec fn thresholds_set(&self) -> bool {
        &&& self.hashes_gc_threshold.is_some()
        &&& self.finalized_gc_threshold.is_some()
        &&& self.num_confirmations.is_some()
    }

    /// What holds of an initialised state whether or not it has been pruned
    /// since its best header last changed.
    pub open spec fn core_ok(&self) -> bool {
        &&& self.is_init()
        &&& self.thresholds_set()
        &&& 1 <= self.hashes_gc() <= self.finalized_gc()
        &&& self.canon().len() >= 1
        &&& self.unique_hashes()
        &&& self.canonical_linked()
        &&& self.canonical_difficulty_increasing()
        &&& self.best_is_maximal()
        &&& self.parents_lighter()
        &&& self.parents_kept()
        &&& forall|i: int| 0 <= i < self.stored().len() ==> #[trigger] self.stored()[i].number >= self.floor()
    }

    pub open spec fn wf(&self) -> bool {
        if !self.is_init() {
            &&& self.stored().len() == 0
            &&& self.canon().len() == 0
            &&& self.thresholds_unset()
        } else {
            &&& self.core_ok()
            &&& self.gc_horizon_respected()
            &&& self.floor() >= self.best_number() - self.finalized_gc()
        }
    }

    /// An uninitialised chain state.
    pub fn new() -> (r: Module)
        ensures
            r.wf(),
            !r.is_init(),
    {
        Module {
            dags_start_epoch: None,
            dags_merkle_roots: Vec::new(),
            hashes_gc_threshold: None,
            finalized_gc_threshold: None,
            num_confirmations: None,
            trusted_signer: None,
            headers: Vec::new(),
            canonical_start: 0,
            canonical: Vec::new(),
            gc_floor: 0,
        }
    }

    /// Whether the one-time initialisation has happened.
    pub fn initialized(&self) -> (r: bool)
        ensures
            r == self.is_init(),
    {
        self.dags_start_epoch.is_some()
    }

    pub open spec fn thresholds_valid(hashes: u64, finalized: u64, confirmations: u64) -> bool {
        hashes >= 1 && confirmations >= 1 && finalized >= hashes
    }

    /// One-time initialisation with a genesis header that is accepted as given.
    pub fn init_with_header(
        &mut self,
        dags_start_epoch: u64,
        dags_merkle_roots: Vec<Root>,
        genesis: Header,
        hashes_gc_threshold: u64,
        finalized_gc_threshold: u64,
        num_confirmations: u64,
        trusted_signer: Option<AccountId>,
    ) -> (r: Result<(), InitError>)
        requires
            old(self).wf(),
        ensures
            final(self).wf(),
            old(self).is_init() ==> r == Err::<(), InitError>(InitError::AlreadyInitialized),
            !old(self).is_init() && !Self::thresholds_valid(hashes_gc_threshold, finalized_gc_threshold, num_confirmations)
                ==> r == Err::<(), InitError>(InitError::InvalidThresholds),
            r is Err ==> *final(self) == *old(self),
            r is Ok <==> !old(self).is_init() && Self::thresholds_valid(hashes_gc_threshold, finalized_gc_threshold, num_confirmations),
            r is Ok ==> {
                &&& final(self).is_init()
                &&& final(self).start_epoch() == dags_start_epoch
                &&& final(self).roots() == dags_merkle_roots@
                &&& final(self).hashes_gc() == hashes_gc_threshold
                &&& final(self).finalized_gc() == finalized_gc_threshold
                &&& final(self).confirmations() == num_confirmations
                &&& final(self).trusted() == trusted_signer
                &&& final(self).stored() == seq![genesis]
                &&& final(self).canon() == seq![genesis]
                &&& final(self).canon_start() == genesis.number
            },
    {
        if self.dags_start_epoch.is_some() || self.hashes_gc_threshold.is_some()
            || self.finalized_gc_threshold.is_some() {
            return Err(InitError::AlreadyInitialized);
        }
        if hashes_gc_threshold == 0 || num_confirmations == 0
            || finalized_gc_threshold < hashes_gc_threshold {
            return Err(InitError::InvalidThresholds);
        }
        self.dags_start_epoch = Some(dags_start_epoch);
        self.dags_merkle_roots = dags_merkle_roots;
        self.hashes_gc_threshold = Some(hashes_gc_threshold);
        self.finalized_gc_threshold = Some(finalized_gc_threshold);
        self.num_confirmations = Some(num_confirmations);
        self.trusted_signer = trusted_signer;
        self.headers = vec![genesis];
        self.canonical_start = genesis.number;
        self.canonical = vec![genesis];
        self.gc_floor = genesis.number;
        proof {
            assert(self.stored()[0] == genesis);
            assert(self.stored().contains(self.canon()[0]));
        }
        Ok(())
    }

    /// One-time initialisation from an encoded genesis header.
    pub fn init(
        &mut self,
        dags_start_epoch: u64,
        dags_merkle_roots: Vec<Root>,
        first_header: Vec<u8>,
        hashes_gc_threshold: u64,
        finalized_gc_threshold: u64,
        num_confirmations: u64,
        trusted_signer: Option<AccountId>,
    ) -> (r: Result<(), InitError>)
        requires
            old(self).wf(),
        ensures
            final(self).wf(),
            old(self).is_init() ==> r == Err::<(), InitError>(InitError::AlreadyInitialized),
            !old(self).is_init() && !Self::thresholds_valid(hashes_gc_threshold, finalized_gc_threshold, num_confirmations)
                ==> r == Err::<(), InitError>(InitError::InvalidThresholds),
            !old(self).is_init() && Self::thresholds_valid(hashes_gc_threshold, finalized_gc_threshold, num_confirmations)
                && rlp_genesis(first_header@) is None ==> r == Err::<(), InitError>(InitError::MalformedGenesis),
            r is Err ==> *final(self) == *old(self),
            r is Ok <==> !old(self).is_init() && Self::thresholds_valid(hashes_gc_threshold, finalized_gc_threshold, num_confirmations)
                && rlp_genesis(first_header@) is Some,
            r is Ok ==> {
                &&& final(self).is_init()
                &&& final(self).start_epoch() == dags_start_epoch
                &&& final(self).roots() == dags_merkle_roots@
                &&& final(self).hashes_gc() == hashes_gc_threshold
                &&& final(self).finalized_gc() == finalized_gc_threshold
                &&& final(self).confirmations() == num_confirmations
                &&& final(self).trusted() == trusted_signer
                &&& final(self).stored() == seq![rlp_genesis(first_header@).unwrap()]
                &&& final(self).canon() == seq![rlp_genesis(first_header@).unwrap()]
                &&& final(self).canon_start() == rlp_genesis(first_header@).unwrap().number
            },
    {
        if self.dags_start_epoch.is_some() || self.hashes_gc_threshold.is_some()
            || self.finalized_gc_threshold.is_some() {
            return Err(InitError::AlreadyInitialized);
        }
        if hashes_gc_threshold == 0 || num_confirmations == 0
            || finalized_gc_threshold < hashes_gc_threshold {
            return Err(InitError::InvalidThresholds);
        }
        match decode_genesis(first_header.as_slice()) {
            None => Err(InitError::MalformedGenesis),
            Some(genesis) => self.init_with_header(
                dags_start_epoch,
                dags_merkle_roots,
                genesis,
                hashes_gc_threshold,
                finalized_gc_threshold,
                num_confirmations,
                trusted_signer,
            ),
        }
    }

    /// The puzzle-commitment root recorded for `epoch`, if one is.
    pub fn dag_merkle_root(&self, epoch: u64) -> (r: Option<Root>)
        ensures
            r == self.epoch_root(epoch as int),
    {
        match self.dags_start_epoch {
            None => None,
            Some(ep) => {
                if epoch < ep || epoch - ep >= self.dags_merkle_roots.len() as u64 {
                    None
                } else {
                    Some(self.dags_merkle_roots[(epoch - ep) as usize])
                }
            },
        }
    }

    pub open spec fn epoch_root(&self, epoch: int) -> Option<Root> {
        if self.is_init() && self.start_epoch() <= epoch < self.start_epoch() + self.roots().len() {
            Some(self.roots()[epoch - self.start_epoch()])
        } else {
            None
        }
    }

    /// Height of the best header; zero before initialisation.
    pub fn last_block_number(&self) -> (r: u64)
        requires
            self.wf(),
        ensures
            self.is_init() ==> r == self.best_number(),
            !self.is_init() ==> r == 0,
    {
        if self.canonical.len() == 0 {
            0
        } else {
            self.canonical[self.canonical.len() - 1].number
        }
    }

    /// Digest of the best header, if initialised.
    pub fn best_header_hash(&self) -> (r: Option<Digest>)
        requires
            self.wf(),
        ensures
            self.is_init() ==> r == Some(self.best_hash()),
            !self.is_init() ==> r is None,
    {
        if self.canonical.len() == 0 {
            None
        } else {
            Some(self.canonical[self.canonical.len() - 1].hash)
        }
    }

    /// The canonical digest at `height`, where one is still kept.
    pub fn hash_at(&self, height: u64) -> (r: Option<Digest>)
        requires
            self.wf(),
        ensures
            r == self.canonical_hash(height as int),
    {
        if height < self.canonical_start {
            return None;
        }
        let k = height - self.canonical_start;
        if k >= self.canonical.len() as u64 {
            None
        } else {
            Some(self.canonical[k as usize].hash)
        }
    }

    /// Whether `height` is canonical and buried under enough confirmations.
    pub fn is_safe(&self, height: u64) -> (r: bool)
        requires
            self.wf(),
        ensures
            r == (self.is_init() && self.is_safe_spec(height as int)),
    {
        match self.num_confirmations {
            None => false,
            Some(c) => {
                if self.canonical.len() == 0 || height < self.canonical_start {
                    return false;
                }
                let k = height - self.canonical_start;
                if k >= self.canonical.len() as u64 {
                    return false;
                }
                let best = self.canonical[self.canonical.len() - 1].number;
                best >= height && best - height >= c
            },
        }
    }

    /// The pruning floor once the best height is `b`.
    pub open spec fn floor_after(&self, b: int) -> int {
        max_int(self.floor(), b - self.finalized_gc())
    }

    /// The first kept canonical height once the best height is `b`.
    pub open spec fn canon_start_after(&self, b: int) -> int {
        max_int(self.canon_start(), b - self.hashes_gc())
    }

    /// The settings that no submission changes.
    pub open spec fn same_settings(&self, other: &Module) -> bool {
        &&& self.is_init() == other.is_init()
        &&& self.start_epoch() == other.start_epoch()
        &&& self.roots() == other.roots()
        &&& self.hashes_gc() == other.hashes_gc()
        &&& self.finalized_gc() == other.finalized_gc()
        &&& self.confirmations() == other.confirmations()
        &&& self.trusted() == other.trusted()
        &&& self.thresholds_set() == other.thresholds_set()
        &&& self.thresholds_unset() == other.thresholds_unset()
    }

    /// Drops what lies below the two retention horizons of the best height.
    #[verifier::rlimit(60)]
    fn collect_garbage(&mut self)
        requires
            old(self).core_ok(),
        ensures
            final(self).wf(),
            final(self).best() == old(self).best(),
            final(self).same_settings(&*old(self)),
            final(self).floor() == old(self).floor_after(old(self).best_number()),
            final(self).canon_start() == old(self).canon_start_after(old(self).best_number()),
            final(self).canon() == old(self).canon().skip(final(self).canon_start() - old(self).canon_start()),
            forall|x: Header| #[trigger] final(self).stored().contains(x)
                <==> old(self).stored().contains(x) && x.number >= final(self).floor(),
            old(self).unique_hashes() ==> final(self).unique_hashes(),
    {
        let best = self.canonical[self.canonical.len() - 1].number;
        let fin = match self.finalized_gc_threshold { Some(f) => f, None => 0 };
        let hashes = match self.hashes_gc_threshold { Some(h) => h, None => 1 };
        let low = if best >= fin { best - fin } else { 0 };
        let floor = if self.gc_floor >= low { self.gc_floor } else { low };
        let mut kept: Vec<Header> = Vec::new();
        let ghost idx: Seq<int> = seq![];
        let mut i: usize = 0;
        while i < self.headers.len()
            invariant
                i <= self.headers.len(),
                self.headers@ == old(self).headers@,
                idx.len() == kept@.len(),
                forall|k: int| 0 <= k < idx.len() ==> 0 <= #[trigger] idx[k] < i,
                forall|a: int, b: int| 0 <= a < b < idx.len() ==> idx[a] < idx[b],
                forall|k: int| 0 <= k < idx.len() ==> kept@[k] == #[trigger] self.headers@[idx[k]],
                forall|k: int| 0 <= k < kept@.len() ==> #[trigger] kept@[k].number >= floor,
                forall|j: int| 0 <= j < i && self.headers@[j].number >= floor ==> kept@.contains(#[trigger] self.headers@[j]),
            decreases self.headers.len() - i,
        {
            let h = self.headers[i];
            if h.number >= floor {
                let ghost prev = kept@;
                proof {
                    idx = idx.push(i as int);
                }
                kept.push(h);
                proof {
                    assert(kept@[kept@.len() - 1] == h);
                    assert forall|j: int| 0 <= j < i + 1 && self.headers@[j].number >= floor implies kept@.contains(#[trigger] self.headers@[j]) by {
                        if j < i {
                            assert(prev.contains(self.headers@[j]));
                            let w = choose|w: int| 0 <= w < prev.len() && prev[w] == self.headers@[j];
                            assert(kept@[w] == self.headers@[j]);
                        }
                    }
                }
            }
            i = i + 1;
        }
        proof {
            assert forall|x: Header| #[trigger] kept@.contains(x)
                <==> old(self).stored().contains(x) && x.number >= floor by {
                if kept@.contains(x) {
                    let w = choose|w: int| 0 <= w < kept@.len() && kept@[w] == x;
                    assert(self.headers@[idx[w]] == x);
                }
                if old(self).stored().contains(x) && x.number >= floor {
                    let w = choose|w: int| 0 <= w < old(self).stored().len() && old(self).stored()[w] == x;
                    assert(self.headers@[w] == x);
                }
            }
            if old(self).unique_hashes() {
                assert forall|a: int, b: int|
                    0 <= a < kept@.len() && 0 <= b < kept@.len() && kept@[a].hash == kept@[b].hash implies a == b by {
                    assert(self.headers@[idx[a]].hash == self.headers@[idx[b]].hash);
                    if a < b {
                        assert(idx[a] < idx[b]);
                    } else if b < a {
                        assert(idx[b] < idx[a]);
                    }
                }
            }
        }
        self.headers = kept;
        self.gc_floor = floor;
        let top = if best >= hashes { best - hashes } else { 0 };
        if top > self.canonical_start {
            let skip = (top - self.canonical_start) as usize;
            let mut rest: Vec<Header> = Vec::new();
            let mut k: usize = skip;
            while k < self.canonical.len()
                invariant
                    skip <= k <= self.canonical.len(),
                    self.canonical@ == old(self).canonical@,
                    rest@ == self.canonical@.subrange(skip as int, k as int),
                decreases self.canonical.len() - k,
            {
                rest.push(self.canonical[k]);
                k = k + 1;
            }
            proof {
                assert(rest@ =~= old(self).canon().skip(skip as int));
            }
            self.canonical = rest;
            self.canonical_start = top;
        } else {
            proof {
                assert(self.canon() =~= old(self).canon().skip(0));
            }
        }
        proof {
            self.lemma_pruned_wf(&*old(self));
        }
    }

    proof fn lemma_pruned_wf(&self, pre: &Module)
        requires
            pre.core_ok(),
            self.same_settings(pre),
            self.floor() == pre.floor_after(pre.best_number()),
            self.canon_start() == pre.canon_start_after(pre.best_number()),
            self.canon() == pre.canon().skip(self.canon_start() - pre.canon_start()),
            forall|x: Header| #[trigger] self.stored().contains(x)
                <==> pre.stored().contains(x) && x.number >= self.floor(),
            self.unique_hashes(),
        ensures
            self.wf(),
            self.best() == pre.best(),
    {
        let s = self.canon_start() - pre.canon_start();
        assert(0 <= s < pre.canon().len());
        assert(self.canon().len() == pre.canon().len() - s);
        assert(self.best() == pre.best());
        assert forall|k: int| 0 <= k < self.canon().len() implies self.stored().contains(#[trigger] self.canon()[k]) by {
            assert(self.canon()[k] == pre.canon()[k + s]);
            assert(pre.stored().contains(pre.canon()[k + s]));
            let w = choose|w: int| 0 <= w < pre.stored().len() && pre.stored()[w] == pre.canon()[k + s];
            assert(pre.stored()[w].number >= pre.floor());
        }
        assert forall|k: int| 0 <= k < self.canon().len() implies #[trigger] self.canon()[k].number == self.canon_start() + k by {
            assert(self.canon()[k] == pre.canon()[k + s]);
        }
        assert forall|k: int| 0 < k < self.canon().len() implies #[trigger] self.canon()[k].parent_hash == self.canon()[k - 1].hash by {
            assert(self.canon()[k] == pre.canon()[k + s]);
            assert(self.canon()[k - 1] == pre.canon()[k - 1 + s]);
        }
        assert forall|k: int| 0 < k < self.canon().len() implies
            self.canon()[k - 1].total_difficulty < #[trigger] self.canon()[k].total_difficulty by {
            assert(self.canon()[k] == pre.canon()[k + s]);
            assert(self.canon()[k - 1] == pre.canon()[k - 1 + s]);
        }
        assert forall|i: int| 0 <= i < self.stored().len() implies
            #[trigger] self.stored()[i].total_difficulty <= self.best().total_difficulty by {
            assert(self.stored().contains(self.stored()[i]));
            let w = choose|w: int| 0 <= w < pre.stored().len() && pre.stored()[w] == self.stored()[i];
        }
        assert forall|i: int| 0 <= i < self.stored().len() implies
            #[trigger] self.stored()[i].number >= self.floor() by {
            assert(self.stored().contains(self.stored()[i]));
        }
        assert forall|i: int, j: int|
            0 <= i < self.stored().len() && 0 <= j < self.stored().len()
                && #[trigger] self.stored()[i].parent_hash == #[trigger] self.stored()[j].hash
                && self.stored()[i].number == self.stored()[j].number + 1
                implies self.stored()[j].total_difficulty < self.stored()[i].total_difficulty by {
            assert(self.stored().contains(self.stored()[i]));
            assert(self.stored().contains(self.stored()[j]));
            let wi = choose|w: int| 0 <= w < pre.stored().len() && pre.stored()[w] == self.stored()[i];
            let wj = choose|w: int| 0 <= w < pre.stored().len() && pre.stored()[w] == self.stored()[j];
            assert(pre.stored()[wi].parent_hash == pre.stored()[wj].hash);
        }
        assert forall|i: int| 0 <= i < self.stored().len() && #[trigger] self.stored()[i].number > self.floor()
            implies self.knows_at(self.stored()[i].parent_hash, self.stored()[i].number - 1) by {
            assert(self.stored().contains(self.stored()[i]));
            let wi = choose|w: int| 0 <= w < pre.stored().len() && pre.stored()[w] == self.stored()[i];
            assert(pre.stored()[wi].number > pre.floor());
            assert(pre.knows_at(pre.stored()[wi].parent_hash, pre.stored()[wi].number - 1));
            let wj = choose|w: int| 0 <= w < pre.stored().len() && pre.stored()[w].hash == pre.stored()[wi].parent_hash
                && pre.stored()[w].number == pre.stored()[wi].number - 1;
            assert(pre.stored().contains(pre.stored()[wj]));
            assert(self.stored().contains(pre.stored()[wj]));
            let v = choose|v: int| 0 <= v < self.stored().len() && self.stored()[v] == pre.stored()[wj];
        }
        assert(self.canonical_linked());
        assert(self.canonical_difficulty_increasing());
        assert(self.best_is_maximal());
        assert(self.parents_lighter());
        assert(self.parents_kept());
        assert(self.gc_horizon_respected());
    }

    /// Walks down from digest `cur` at height `h` towards the canonical chain.
    /// `path` holds the headers already walked, lowest first. The result is
    /// the height at which the canonical chain holds `cur`, with the headers
    /// above it, or `None` where that takes more than `fuel` further headers,
    /// leaves the kept canonical window, or meets a header that is not stored.
    #[verifier::opaque]
    pub open spec fn fork_walk(&self, cur: Digest, h: int, path: Seq<Header>, fuel: nat) -> Option<(int, Seq<Header>)>
        decreases fuel,
    {
        if self.canonical_hash(h) == Some(cur) {
            Some((h, path))
        } else if fuel == 0 || h < self.canon_start() || !self.knows_at(cur, h) {
            None
        } else {
            let p = self.header_at(cur, h);
            self.fork_walk(p.parent_hash, h - 1, seq![p] + path, (fuel - 1) as nat)
        }
    }

    /// The reorganisation that making `c` the best header takes: at most
    /// `finalized_gc()` canonical entries are rewritten.
    pub open spec fn reorg(&self, c: Header) -> Option<(int, Seq<Header>)> {
        self.fork_walk(c.parent_hash, c.number - 1, seq![c], (self.finalized_gc() - 1) as nat)
    }

    /// The canonical chain once `c` is the best header, before pruning.
    pub open spec fn reorged_canon(&self, c: Header) -> Seq<Header> {
        let (f, path) = self.reorg(c).unwrap();
        self.canon().take(f - self.canon_start() + 1) + path
    }

    /// Computes the canonical chain that making `c` the best header yields.
    fn walk(&self, c: &Header) -> (r: Option<Vec<Header>>)
        requires
            self.wf(),
            self.is_init(),
            c.number >= 1,
        ensures
            r is None <==> self.reorg(*c) is None,
            r matches Some(v) ==> v@ == self.reorged_canon(*c),
    {
        let fin = match self.finalized_gc_threshold { Some(f) => f, None => 1 };
        let mut desc: Vec<Header> = vec![*c];
        let ghost path: Seq<Header> = seq![*c];
        let mut cur: Digest = c.parent_hash;
        let mut h: u64 = c.number - 1;
        let mut fuel: u64 = fin - 1;
        loop
            invariant
                self.wf(),
                self.is_init(),
                fin == self.finalized_gc(),
                self.reorg(*c) == self.fork_walk(cur, h as int, path, fuel as nat),
                desc@.len() == path.len(),
                forall|k: int| 0 <= k < path.len() ==> path[k] == #[trigger] desc@[desc@.len() - 1 - k],
            ensures
                h >= self.canonical_start,
                h - self.canonical_start < self.canonical@.len(),
                self.reorg(*c) == Some((h as int, path)),
                desc@.len() == path.len(),
                forall|k: int| 0 <= k < path.len() ==> path[k] == #[trigger] desc@[desc@.len() - 1 - k],
            decreases fuel,
        {
            proof {
                reveal(Module::fork_walk);
            }
            let start = self.canonical_start;
            if h >= start && h - start < self.canonical.len() as u64
                && hash_eq(&self.canonical[(h - start) as usize].hash, &cur) {
                break;
            }
            if fuel == 0 || h < start {
                return None;
            }
            match self.find(&cur) {
                None => {
                    return None;
                },
                Some(i) => {
                    let p = self.headers[i];
                    if p.number != h {
                        proof {
                            assert(!self.knows_at(cur, h as int));
                        }
                        return None;
                    }
                    proof {
                        assert(self.knows_at(cur, h as int));
                        let j = choose|j: int| 0 <= j < self.stored().len() && self.stored()[j].hash == cur
                            && self.stored()[j].number == h;
                        assert(j == i);
                        path = seq![p] + path;
                    }
                    let ghost prev = desc@;
                    desc.push(p);
                    proof {
                        assert forall|k: int| 0 <= k < path.len() implies path[k] == #[trigger] desc@[desc@.len() - 1 - k] by {
                            if k > 0 {
                                assert(path[k] == prev[prev.len() - 1 - (k - 1)]);
                            }
                        }
                    }
                    if h == 0 {
                        proof {
                            let q = self.header_at(cur, 0);
                            assert(self.fork_walk(q.parent_hash, -1, path, (fuel - 1) as nat) is None);
                        }
                        return None;
                    }
                    cur = p.parent_hash;
                    h = h - 1;
                    fuel = fuel - 1;
                },
            }
        }
        let start = self.canonical_start;
        let keep = (h - start) as usize;
        let mut out: Vec<Header> = Vec::new();
        let mut k: usize = 0;
        while k <= keep
            invariant
                keep < self.canonical.len(),
                k <= keep + 1,
                out@ == self.canon().take(k as int),
            decreases keep + 1 - k,
        {
            out.push(self.canonical[k]);
            proof {
                assert(out@ =~= self.canon().take(k + 1));
            }
            k = k + 1;
        }
        let mut m: usize = desc.len();
        while m > 0
            invariant
                m <= desc.len(),
                desc@.len() == path.len(),
                forall|k: int| 0 <= k < path.len() ==> path[k] == #[trigger] desc@[desc@.len() - 1 - k],
                out@ == self.canon().take(keep + 1) + path.take(desc.len() - m),
            decreases m,
        {
            m = m - 1;
            out.push(desc[m]);
            proof {
                let kk = desc.len() - 1 - m;
                assert(path[kk] == desc@[desc@.len() - 1 - kk]);
                assert(out@ =~= self.canon().take(keep + 1) + path.take(desc.len() - m));
            }
        }
        proof {
            assert(path.take(path.len() as int) =~= path);
        }
        Some(out)
    }

    /// The headers in `path` follow one another, lowest first, each heavier
    /// than the one below it.
    pub open spec fn chained(path: Seq<Header>) -> bool {
        forall|k: int| 0 < k < path.len() ==> {
            &&& #[trigger] path[k].parent_hash == path[k - 1].hash
            &&& path[k].number == path[k - 1].number + 1
            &&& path[k - 1].total_difficulty < path[k].total_difficulty
        }
    }

    proof fn lemma_fork_walk(&self, cur: Digest, h: int, path: Seq<Header>, fuel: nat)
        requires
            self.core_ok(),
            path.len() >= 1,
            path[0].number == h + 1,
            path[0].parent_hash == cur,
            Self::chained(path),
            forall|k: int| 0 <= k < path.len() - 1 ==> self.stored().contains(#[trigger] path[k]),
            forall|i: int| 0 <= i < self.stored().len() && #[trigger] self.stored()[i].hash == cur
                && self.stored()[i].number == h ==> self.stored()[i].total_difficulty < path[0].total_difficulty,
        ensures
            self.fork_walk(cur, h, path, fuel) matches Some((f, q)) ==> {
                &&& self.canon_start() <= f < self.canon_start() + self.canon().len()
                &&& q.len() >= 1
                &&& q.last() == path.last()
                &&& q[0].number == f + 1
                &&& q[0].parent_hash == self.canon()[f - self.canon_start()].hash
                &&& self.canon()[f - self.canon_start()].total_difficulty < q[0].total_difficulty
                &&& Self::chained(q)
                &&& forall|k: int| 0 <= k < q.len() - 1 ==> self.stored().contains(#[trigger] q[k])
                &&& q.len() <= path.len() + fuel
            },
        decreases fuel,
    {
        reveal(Module::fork_walk);
        if self.canonical_hash(h) == Some(cur) {
            let x = self.canon()[h - self.canon_start()];
            assert(self.stored().contains(x));
            let w = choose|w: int| 0 <= w < self.stored().len() && self.stored()[w] == x;
            assert(self.stored()[w].hash == cur);
        } else if fuel == 0 || h < self.canon_start() || !self.knows_at(cur, h) {
        } else {
            let p = self.header_at(cur, h);
            let i = choose|i: int| 0 <= i < self.stored().len() && self.stored()[i].hash == cur
                && self.stored()[i].number == h;
            assert(p == self.stored()[i]);
            let np = seq![p] + path;
            assert(Self::chained(np)) by {
                assert forall|k: int| 0 < k < np.len() implies {
                    &&& #[trigger] np[k].parent_hash == np[k - 1].hash
                    &&& np[k].number == np[k - 1].number + 1
                    &&& np[k - 1].total_difficulty < np[k].total_difficulty
                } by {
                    if k > 1 {
                        assert(np[k] == path[k - 1]);
                        assert(np[k - 1] == path[k - 2]);
                    }
                }
            }
            assert forall|k: int| 0 <= k < np.len() - 1 implies self.stored().contains(#[trigger] np[k]) by {
                if k == 0 {
                    assert(self.stored()[i] == np[0]);
                } else {
                    assert(np[k] == path[k - 1]);
                }
            }
            assert forall|j: int| 0 <= j < self.stored().len() && #[trigger] self.stored()[j].hash == p.parent_hash
                && self.stored()[j].number == h - 1 implies self.stored()[j].total_difficulty < np[0].total_difficulty by {
                assert(self.stored()[i].parent_hash == self.stored()[j].hash);
            }
            self.lemma_fork_walk(p.parent_hash, h - 1, np, (fuel - 1) as nat);
            assert(np.last() == path.last());
        }
    }

    pub open spec fn parent_known(&self, c: Header) -> bool {
        self.knows_at(c.parent_hash, c.number - 1)
    }

    pub open spec fn parent_of(&self, c: Header) -> Header {
        self.header_at(c.parent_hash, c.number - 1)
    }

    pub open spec fn is_trusted(&self, submitter: AccountId) -> bool {
        self.trusted() == Some(submitter)
    }

    /// The header validator: whether `c` may join the chain. A trusted
    /// submitter skips the puzzle check (a missing epoch root or a failed
    /// proof), not the check of the parent or of the difficulty.
    pub open spec fn validate_spec(&self, c: Header, submitter: AccountId, proof_valid: bool) -> Result<(), SubmitError> {
        if !self.parent_known(c) {
            Err(SubmitError::UnknownParent)
        } else if !self.is_trusted(submitter) && self.epoch_root((c.number / EPOCH_LENGTH) as int) is None {
            Err(SubmitError::MissingEpochRoot)
        } else if !self.is_trusted(submitter) && !proof_valid {
            Err(SubmitError::InvalidProof)
        } else if c.difficulty == 0 || self.parent_of(c).total_difficulty + c.difficulty != c.total_difficulty {
            Err(SubmitError::BadDifficulty)
        } else {
            Ok(())
        }
    }

    /// Fork choice: strictly more cumulative difficulty wins.
    pub open spec fn becomes_best(&self, c: Header) -> bool {
        c.total_difficulty > self.best().total_difficulty
    }

    /// What submitting `c` returns.
    pub open spec fn submit_result(&self, c: Header, submitter: AccountId, proof_valid: bool) -> Result<Digest, SubmitError> {
        if self.knows(c.hash) {
            Ok(self.best_hash())
        } else {
            match self.validate_spec(c, submitter, proof_valid) {
                Err(e) => Err(e),
                Ok(()) => if !self.becomes_best(c) {
                    Ok(self.best_hash())
                } else if self.reorg(c) is None {
                    Err(SubmitError::ReorgTooDeep)
                } else {
                    Ok(c.hash)
                },
            }
        }
    }

    /// `next` is this state once the new header `c` has been accepted: it is
    /// stored, fork choice has run, and what falls below the horizons of the
    /// resulting best height is pruned.
    pub open spec fn accepted_into(&self, c: Header, next: &Module) -> bool {
        let chain = if self.becomes_best(c) { self.reorged_canon(c) } else { self.canon() };
        let b = if self.becomes_best(c) { c.number as int } else { self.best_number() };
        &&& next.same_settings(self)
        &&& next.floor() == self.floor_after(b)
        &&& next.canon_start() == self.canon_start_after(b)
        &&& next.canon() == chain.skip(next.canon_start() - self.canon_start())
        &&& forall|x: Header| #[trigger] next.stored().contains(x)
            <==> (self.stored().contains(x) || x == c) && x.number >= next.floor()
    }

    proof fn lemma_kept(&self, c: Header)
        requires
            self.stored().contains(c),
        ensures
            self.knows(c.hash),
    {
        let w = choose|w: int| 0 <= w < self.stored().len() && self.stored()[w] == c;
    }

    proof fn lemma_chained_numbers(q: Seq<Header>, m: int)
        requires
            Self::chained(q),
            0 <= m < q.len(),
        ensures
            q[m].number == q[0].number + m,
        decreases m,
    {
        if m > 0 {
            Self::lemma_chained_numbers(q, m - 1);
            assert(q[m].parent_hash == q[m - 1].hash);
        }
    }

    #[verifier::spinoff_prover]
    #[verifier::rlimit(100)]
    proof fn lemma_reorged_canon(pre: &Module, c: Header)
        requires
            pre.core_ok(),
            pre.parent_known(c),
            pre.parent_of(c).total_difficulty < c.total_difficulty,
            pre.becomes_best(c),
            pre.reorg(c) is Some,
        ensures
            ({
                let chain = pre.reorged_canon(c);
                &&& chain.len() >= 1
                &&& chain.last() == c
                &&& forall|k: int| 0 <= k < chain.len() ==> pre.stored().contains(#[trigger] chain[k]) || chain[k] == c
                &&& forall|k: int| 0 <= k < chain.len() ==> #[trigger] chain[k].number == pre.canon_start() + k
                &&& forall|k: int| 0 < k < chain.len() ==> #[trigger] chain[k].parent_hash == chain[k - 1].hash
                &&& forall|k: int| 0 < k < chain.len() ==> chain[k - 1].total_difficulty < #[trigger] chain[k].total_difficulty
            }),
    {
        let n = pre.stored().len() as int;
        let path = seq![c];
        assert(Self::chained(path));
        assert forall|i: int| 0 <= i < n && #[trigger] pre.stored()[i].hash == c.parent_hash
            && pre.stored()[i].number == c.number - 1 implies pre.stored()[i].total_difficulty < path[0].total_difficulty by {
            let pi = choose|i: int| 0 <= i < n && pre.stored()[i].hash == c.parent_hash
                && pre.stored()[i].number == c.number - 1;
            assert(pre.stored()[pi].hash == pre.stored()[i].hash);
        }
        pre.lemma_fork_walk(c.parent_hash, c.number - 1, path, (pre.finalized_gc() - 1) as nat);
        let (f, q) = pre.reorg(c).unwrap();
        let t = f - pre.canon_start() + 1;
        let chain = pre.canon().take(t) + q;
        assert(chain.last() == c);
        assert forall|k: int| 0 <= k < chain.len() implies pre.stored().contains(#[trigger] chain[k]) || chain[k] == c by {
            if k < t {
                assert(chain[k] == pre.canon()[k]);
                assert(pre.stored().contains(pre.canon()[k]));
            } else if k < chain.len() - 1 {
                assert(chain[k] == q[k - t]);
                assert(pre.stored().contains(q[k - t]));
            }
        }
        assert forall|k: int| 0 <= k < chain.len() implies #[trigger] chain[k].number == pre.canon_start() + k by {
            if k < t {
                assert(chain[k] == pre.canon()[k]);
            } else {
                assert(chain[k] == q[k - t]);
                Self::lemma_chained_numbers(q, k - t);
            }
        }
        assert forall|k: int| 0 < k < chain.len() implies #[trigger] chain[k].parent_hash == chain[k - 1].hash by {
            Self::lemma_chain_step(pre.canon(), q, t, k);
        }
        assert forall|k: int| 0 < k < chain.len() implies
            chain[k - 1].total_difficulty < #[trigger] chain[k].total_difficulty by {
            Self::lemma_chain_step(pre.canon(), q, t, k);
        }
    }

    proof fn lemma_chain_step(canon: Seq<Header>, q: Seq<Header>, t: int, k: int)
        requires
            1 <= t <= canon.len(),
            q.len() >= 1,
            0 < k < t + q.len(),
            Self::chained(q),
            q[0].parent_hash == canon[t - 1].hash,
            canon[t - 1].total_difficulty < q[0].total_difficulty,
            forall|j: int| 0 < j < canon.len() ==> #[trigger] canon[j].parent_hash == canon[j - 1].hash,
            forall|j: int| 0 < j < canon.len() ==> canon[j - 1].total_difficulty < #[trigger] canon[j].total_difficulty,
        ensures
            ({
                let chain = canon.take(t) + q;
                &&& chain[k].parent_hash == chain[k - 1].hash
                &&& chain[k - 1].total_difficulty < chain[k].total_difficulty
            }),
    {
        let chain = canon.take(t) + q;
        if k < t {
            assert(chain[k] == canon[k]);
            assert(chain[k - 1] == canon[k - 1]);
        } else if k == t {
            assert(chain[k] == q[0]);
            assert(chain[k - 1] == canon[t - 1]);
        } else {
            assert(chain[k] == q[k - t]);
            assert(chain[k - 1] == q[k - t - 1]);
        }
    }

    proof fn lemma_accept_core(pre: &Module, mid: &Module, c: Header)
        requires
            pre.wf(),
            pre.is_init(),
            !pre.knows(c.hash),
            pre.parent_known(c),
            c.difficulty >= 1,
            pre.parent_of(c).total_difficulty + c.difficulty == c.total_difficulty,
            mid.same_settings(pre),
            mid.floor() == pre.floor(),
            mid.canon_start() == pre.canon_start(),
            mid.stored() == pre.stored().push(c),
            pre.becomes_best(c) ==> pre.reorg(c) is Some && mid.canon() == pre.reorged_canon(c),
            !pre.becomes_best(c) ==> mid.canon() == pre.canon(),
        ensures
            mid.core_ok(),
            mid.best_number() == if pre.becomes_best(c) { c.number as int } else { pre.best_number() },
            mid.best() == if pre.becomes_best(c) { c } else { pre.best() },
            forall|x: Header| #[trigger] mid.stored().contains(x) <==> pre.stored().contains(x) || x == c,
    {
        let n = pre.stored().len() as int;
        let pi = choose|i: int| 0 <= i < n && pre.stored()[i].hash == c.parent_hash
            && pre.stored()[i].number == c.number - 1;
        let parent = pre.stored()[pi];
        assert(pre.parent_of(c) == parent);
        assert(mid.stored()[n] == c);
        assert(mid.stored().len() == n + 1);
        assert forall|x: Header| #[trigger] mid.stored().contains(x) <==> pre.stored().contains(x) || x == c by {
            if pre.stored().contains(x) {
                let w = choose|w: int| 0 <= w < n && pre.stored()[w] == x;
                assert(mid.stored()[w] == x);
            }
            if mid.stored().contains(x) {
                let w = choose|w: int| 0 <= w < n + 1 && mid.stored()[w] == x;
                if w < n {
                    assert(pre.stored()[w] == x);
                }
            }
        }
        assert forall|i: int| 0 <= i < n + 1 implies #[trigger] mid.stored()[i].number >= mid.floor() by {
            if i < n {
                assert(mid.stored()[i] == pre.stored()[i]);
            }
        }
        assert forall|i: int, j: int|
            0 <= i < n + 1 && 0 <= j < n + 1 && mid.stored()[i].hash == mid.stored()[j].hash implies i == j by {
            if i < n && j == n {
                assert(pre.stored()[i].hash == c.hash);
            } else if j < n && i == n {
                assert(pre.stored()[j].hash == c.hash);
            }
        }
        assert forall|i: int, j: int|
            0 <= i < n + 1 && 0 <= j < n + 1
                && #[trigger] mid.stored()[i].parent_hash == #[trigger] mid.stored()[j].hash
                && mid.stored()[i].number == mid.stored()[j].number + 1
                implies mid.stored()[j].total_difficulty < mid.stored()[i].total_difficulty by {
            if i == n && j < n {
                assert(pre.stored()[j] == parent);
            } else if j == n && i < n {
                let y = pre.stored()[i];
                assert(y.number > pre.floor());
                assert(pre.knows_at(y.parent_hash, y.number - 1));
                let w = choose|w: int| 0 <= w < n && pre.stored()[w].hash == y.parent_hash
                    && pre.stored()[w].number == y.number - 1;
                assert(pre.stored()[w].hash == c.hash);
            } else if i == n && j == n {
            } else {
                assert(mid.stored()[i] == pre.stored()[i]);
                assert(mid.stored()[j] == pre.stored()[j]);
            }
        }
        assert forall|i: int| 0 <= i < n + 1 && #[trigger] mid.stored()[i].number > mid.floor()
            implies mid.knows_at(mid.stored()[i].parent_hash, mid.stored()[i].number - 1) by {
            if i == n {
                assert(mid.stored()[pi] == parent);
            } else {
                let y = pre.stored()[i];
                assert(mid.stored()[i] == y);
                assert(pre.knows_at(y.parent_hash, y.number - 1));
                let w = choose|w: int| 0 <= w < n && pre.stored()[w].hash == y.parent_hash
                    && pre.stored()[w].number == y.number - 1;
                assert(mid.stored()[w] == pre.stored()[w]);
            }
        }
        if pre.becomes_best(c) {
            Self::lemma_reorged_canon(pre, c);
            let chain = pre.reorged_canon(c);
            assert forall|k: int| 0 <= k < chain.len() implies mid.stored().contains(#[trigger] chain[k]) by {
                assert(pre.stored().contains(chain[k]) || chain[k] == c);
            }
            assert forall|i: int| 0 <= i < n + 1 implies
                #[trigger] mid.stored()[i].total_difficulty <= mid.best().total_difficulty by {
                if i < n {
                    assert(mid.stored()[i] == pre.stored()[i]);
                }
            }
        } else {
            assert forall|k: int| 0 <= k < mid.canon().len() implies mid.stored().contains(#[trigger] mid.canon()[k]) by {
                assert(pre.stored().contains(pre.canon()[k]));
            }
            assert forall|i: int| 0 <= i < n + 1 implies
                #[trigger] mid.stored()[i].total_difficulty <= mid.best().total_difficulty by {
                if i < n {
                    assert(mid.stored()[i] == pre.stored()[i]);
                }
            }
        }
        assert(mid.unique_hashes());
        assert(mid.canonical_linked());
        assert(mid.canonical_difficulty_increasing());
        assert(mid.best_is_maximal());
        assert(mid.parents_lighter());
        assert(mid.parents_kept());
    }

    /// Ingests a header: validation, storage, fork choice and pruning, all or
    /// nothing. `proof_valid` is the verdict of the puzzle check of `header`
    /// against the root that `dag_merkle_root` gives for its epoch.
    pub fn submit(&mut self, header: Header, submitter: AccountId, proof_valid: bool) -> (r: Result<Digest, SubmitError>)
        requires
            old(self).wf(),
        ensures
            final(self).wf(),
            r == old(self).submit_result(header, submitter, proof_valid),
            r is Err || old(self).knows(header.hash) ==> *final(self) == *old(self),
            r is Ok && !old(self).knows(header.hash) ==> old(self).accepted_into(header, &*final(self)),
            r is Ok ==> final(self).is_init() && r == Ok::<Digest, SubmitError>(final(self).best_hash()),
            r is Ok ==> final(self).knows(header.hash),
            forall|h: int|
                old(self).is_init() && #[trigger] old(self).is_safe_spec(h)
                    && final(self).best_number() >= old(self).best_number()
                    && h >= final(self).best_number() - final(self).hashes_gc()
                    ==> final(self).is_safe_spec(h),
    {
        if self.find(&header.hash).is_some() {
            return Ok(self.canonical[self.canonical.len() - 1].hash);
        }
        if header.number == 0 {
            return Err(SubmitError::UnknownParent);
        }
        let pi = match self.find(&header.parent_hash) {
            None => {
                return Err(SubmitError::UnknownParent);
            },
            Some(i) => i,
        };
        let parent = self.headers[pi];
        if parent.number != header.number - 1 {
            proof {
                if self.knows_at(header.parent_hash, header.number - 1) {
                    let j = choose|j: int| 0 <= j < self.stored().len() && self.stored()[j].hash == header.parent_hash
                        && self.stored()[j].number == header.number - 1;
                    assert(j == pi);
                }
            }
            return Err(SubmitError::UnknownParent);
        }
        proof {
            let j = choose|j: int| 0 <= j < self.stored().len() && self.stored()[j].hash == header.parent_hash
                && self.stored()[j].number == header.number - 1;
            assert(j == pi);
            assert(self.parent_of(header) == parent);
        }
        let trusted = match self.trusted_signer {
            Some(t) => hash_eq(&t, &submitter),
            None => false,
        };
        if !trusted {
            if self.dag_merkle_root(header.number / EPOCH_LENGTH).is_none() {
                return Err(SubmitError::MissingEpochRoot);
            }
            if !proof_valid {
                return Err(SubmitError::InvalidProof);
            }
        }
        if header.difficulty == 0 || parent.total_difficulty > u128::MAX - header.difficulty
            || parent.total_difficulty + header.difficulty != header.total_difficulty {
            return Err(SubmitError::BadDifficulty);
        }
        let best = self.canonical[self.canonical.len() - 1];
        if header.total_difficulty > best.total_difficulty {
            match self.walk(&header) {
                None => Err(SubmitError::ReorgTooDeep),
                Some(chain) => {
                    self.headers.push(header);
                    self.canonical = chain;
                    proof {
                        Self::lemma_accept_core(&*old(self), &*self, header);
                    }
                    self.collect_garbage();
                    proof {
                        self.lemma_kept(header);
                    }
                    Ok(header.hash)
                },
            }
        } else {
            self.headers.push(header);
            proof {
                Self::lemma_accept_core(&*old(self), &*self, header);
            }
            self.collect_garbage();
            proof {
                self.lemma_kept(header);
            }
            Ok(best.hash)
        }
    }

    /// Minimal information about the stored header with digest `d`.
    pub fn infos(&self, d: &Digest) -> (r: Option<HeaderInfo>)
        requires
            self.wf(),
        ensures
            r is Some <==> self.knows(*d),
            r matches Some(info) ==> exists|i: int| 0 <= i < self.stored().len()
                && self.stored()[i].hash == *d && #[trigger] self.stored()[i].info_spec() == info,
    {
        match self.find(d) {
            None => None,
            Some(i) => Some(self.headers[i].info()),
        }
    }

    /// Digests of every stored header at `height`, on every fork.
    pub fn all_header_hashes(&self, height: u64) -> (r: Vec<Digest>)
        ensures
            forall|d: Digest| #[trigger] r@.contains(d) <==> exists|i: int| 0 <= i < self.stored().len()
                && self.stored()[i].hash == d && self.stored()[i].number == height,
    {
        let mut out: Vec<Digest> = Vec::new();
        let mut i: usize = 0;
        while i < self.headers.len()
            invariant
                i <= self.headers.len(),
                forall|d: Digest| #[trigger] out@.contains(d) <==> exists|j: int| 0 <= j < i
                    && self.stored()[j].hash == d && self.stored()[j].number == height,
            decreases self.headers.len() - i,
        {
            if self.headers[i].number == height {
                let ghost prev = out@;
                out.push(self.headers[i].hash);
                proof {
                    assert forall|d: Digest| #[trigger] out@.contains(d) <==> exists|j: int| 0 <= j < i + 1
                        && self.stored()[j].hash == d && self.stored()[j].number == height by {
                        if out@.contains(d) && d != self.stored()[i as int].hash {
                            let w = choose|w: int| 0 <= w < out@.len() && out@[w] == d;
                            assert(w < prev.len());
                            assert(prev[w] == d);
                            assert(prev.contains(d));
                        }
                        if exists|j: int| 0 <= j < i && self.stored()[j].hash == d && self.stored()[j].number == height {
                            assert(prev.contains(d));
                            let w = choose|w: int| 0 <= w < prev.len() && prev[w] == d;
                            assert(out@[w] == d);
                        }
                        if d == self.stored()[i as int].hash {
                            assert(out@[out@.len() - 1] == d);
                            assert(self.stored()[i as int].number == height);
                        }
                    }
                }
            }
            i = i + 1;
        }
        out
    }

    /// Index of the stored header with digest `d`.
    fn find(&self, d: &Digest) -> (r: Option<usize>)
        ensures
            r matches Some(i) ==> i < self.stored().len() && self.stored()[i as int].hash == *d,
            r is None ==> !self.knows(*d),
    {
        let mut i: usize = 0;
        while i < self.headers.len()
            invariant
                i <= self.headers.len(),
                forall|j: int| 0 <= j < i ==> self.stored()[j].hash != *d,
            decreases self.headers.len() - i,
        {
            if hash_eq(&self.headers[i].hash, d) {
                return Some(i);
            }
            i = i + 1;
        }
        None
    }
}

/// A reorganisation rewrites at most `finalized_gc()` canonical heights:
/// where a heavier tip `c` meets the canonical chain further below it than
/// that, `reorg(c)` is `None` and `submit` refuses `c` with `ReorgTooDeep`,
/// leaving the state as it was.
pub proof fn lemma_reorg_depth_bounded(m: &Module, c: Header)
    requires
        m.wf(),
        m.is_init(),
        m.parent_known(c),
        m.parent_of(c).total_difficulty < c.total_difficulty,
    ensures
        m.reorg(c) matches Some((f, q)) ==> q.len() == c.number - f && c.number - f <= m.finalized_gc(),
        m.reorg(c) matches Some((f, q)) ==> m.canonical_hash(f) == Some(q[0].parent_hash),
{
    let n = m.stored().len() as int;
    let path = seq![c];
    assert(Module::chained(path));
    assert forall|i: int| 0 <= i < n && #[trigger] m.stored()[i].hash == c.parent_hash
        && m.stored()[i].number == c.number - 1 implies m.stored()[i].total_difficulty < path[0].total_difficulty by {
        let pi = choose|i: int| 0 <= i < n && m.stored()[i].hash == c.parent_hash
            && m.stored()[i].number == c.number - 1;
        assert(m.stored()[pi].hash == m.stored()[i].hash);
    }
    m.lemma_fork_walk(c.parent_hash, c.number - 1, path, (m.finalized_gc() - 1) as nat);
    if let Some((f, q)) = m.reorg(c) {
        Module::lemma_chained_numbers(q, q.len() - 1);
    }
}

/// Of every state that initialisation and submissions reach: cumulative
/// difficulty strictly grows from each canonical height to the next; no stored
/// header is heavier than the best one; and nothing is kept below the
/// finality horizon, nor any canonical entry below the canonical horizon, of
/// the best height.
pub proof fn lemma_chain_laws(m: &Module)
    requires
        m.wf(),
        m.is_init(),
    ensures
        forall|h: int| #[trigger] m.canonical_hash(h + 1) is Some && m.canonical_hash(h) is Some ==>
            m.canon()[h - m.canon_start()].total_difficulty < m.canon()[h + 1 - m.canon_start()].total_difficulty,
        forall|i: int| 0 <= i < m.stored().len() ==>
            #[trigger] m.stored()[i].total_difficulty <= m.best().total_difficulty,
        forall|i: int| 0 <= i < m.stored().len() ==>
            #[trigger] m.stored()[i].number >= m.best_number() - m.finalized_gc(),
        forall|h: int| h < m.best_number() - m.hashes_gc() ==> #[trigger] m.canonical_hash(h) is None,
{
    assert forall|h: int| #[trigger] m.canonical_hash(h + 1) is Some && m.canonical_hash(h) is Some implies
        m.canon()[h - m.canon_start()].total_difficulty < m.canon()[h + 1 - m.canon_start()].total_difficulty by {
        let k = h + 1 - m.canon_start();
        assert(m.canon()[k - 1].total_difficulty < m.canon()[k].total_difficulty);
    }
}

} // verus!
