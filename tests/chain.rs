use eth_relay::{Digest, Header, InitError, Module, SubmitError};
use ethereum_types::{Bloom, H160, H256, H64, U256};

const ALICE: [u8; 32] = [7u8; 32];
const OPERATOR: [u8; 32] = [9u8; 32];

fn digest(n: u8) -> Digest {
    let mut d = [0u8; 32];
    d[0] = n;
    d[31] = 0xAB;
    d
}

fn header(id: u8, parent: u8, number: u64, difficulty: u128, total: u128) -> Header {
    Header {
        hash: digest(id),
        parent_hash: digest(parent),
        number,
        difficulty,
        total_difficulty: total,
    }
}

fn genesis() -> Header {
    header(1, 0, 0, 100, 100)
}

fn chain_with(hashes: u64, finalized: u64, confirmations: u64) -> Module {
    let mut m = Module::new();
    let r = m.init_with_header(0, vec![[3u8; 16]], genesis(), hashes, finalized, confirmations, None);
    assert_eq!(r, Ok(()));
    m
}

fn chain() -> Module {
    chain_with(10, 10, 2)
}

#[test]
fn scenario_linear_growth() {
    let mut m = chain();
    assert_eq!(m.submit(header(2, 1, 1, 50, 150), ALICE, true), Ok(digest(2)));
    assert_eq!(m.best_header_hash(), Some(digest(2)));
    assert_eq!(m.last_block_number(), 1);
    assert_eq!(m.submit(header(3, 1, 1, 20, 120), ALICE, true), Ok(digest(2)));
    assert_eq!(m.best_header_hash(), Some(digest(2)));
    assert_eq!(m.hash_at(1), Some(digest(2)));
    let at_one = m.all_header_hashes(1);
    assert_eq!(at_one.len(), 2);
    assert!(at_one.contains(&digest(2)) && at_one.contains(&digest(3)));
    assert_eq!(m.infos(&digest(3)).map(|i| i.total_difficulty), Some(120));
}

#[test]
fn scenario_reorg() {
    let mut m = chain();
    m.submit(header(2, 1, 1, 50, 150), ALICE, true).unwrap();
    m.submit(header(3, 1, 1, 20, 120), ALICE, true).unwrap();
    assert_eq!(m.submit(header(4, 3, 2, 180, 300), ALICE, true), Ok(digest(4)));
    assert_eq!(m.best_header_hash(), Some(digest(4)));
    assert_eq!(m.hash_at(0), Some(digest(1)));
    assert_eq!(m.hash_at(1), Some(digest(3)));
    assert_eq!(m.hash_at(2), Some(digest(4)));
    assert_eq!(m.last_block_number(), 2);
}

#[test]
fn scenario_reorg_too_deep() {
    let finalized = 3u64;
    let mut m = chain_with(3, finalized, 1);
    m.submit(header(2, 1, 1, 10_000, 10_100), ALICE, true).unwrap();
    // A fork of finalized + 1 headers on genesis, light until its tip.
    m.submit(header(11, 1, 1, 1, 101), ALICE, true).unwrap();
    m.submit(header(12, 11, 2, 1, 102), ALICE, true).unwrap();
    m.submit(header(13, 12, 3, 1, 103), ALICE, true).unwrap();
    let tip = header(14, 13, 4, 20_000, 20_103);
    assert_eq!(m.submit(tip, ALICE, true), Err(SubmitError::ReorgTooDeep));
    assert_eq!(m.best_header_hash(), Some(digest(2)));
    assert_eq!(m.hash_at(1), Some(digest(2)));
    assert!(m.infos(&digest(14)).is_none());
}

#[test]
fn reorg_within_horizon_is_taken() {
    let mut m = chain_with(3, 3, 1);
    m.submit(header(2, 1, 1, 10_000, 10_100), ALICE, true).unwrap();
    m.submit(header(11, 1, 1, 1, 101), ALICE, true).unwrap();
    m.submit(header(12, 11, 2, 1, 102), ALICE, true).unwrap();
    assert_eq!(m.submit(header(13, 12, 3, 20_000, 20_102), ALICE, true), Ok(digest(13)));
    assert_eq!(m.hash_at(1), Some(digest(11)));
    assert_eq!(m.hash_at(2), Some(digest(12)));
    assert_eq!(m.hash_at(3), Some(digest(13)));
}

#[test]
fn scenario_unknown_parent() {
    let mut m = chain();
    assert_eq!(m.submit(header(5, 77, 1, 10, 110), ALICE, true), Err(SubmitError::UnknownParent));
    // A known digest at the wrong height is no parent either.
    assert_eq!(m.submit(header(5, 1, 2, 10, 110), ALICE, true), Err(SubmitError::UnknownParent));
    assert_eq!(m.best_header_hash(), Some(digest(1)));
}

#[test]
fn submit_before_init_has_no_parent() {
    let mut m = Module::new();
    assert!(!m.initialized());
    assert_eq!(m.submit(header(2, 1, 1, 50, 150), ALICE, true), Err(SubmitError::UnknownParent));
    assert_eq!(m.last_block_number(), 0);
    assert_eq!(m.best_header_hash(), None);
}

#[test]
fn resubmission_is_idempotent() {
    let mut m = chain();
    let h = header(2, 1, 1, 50, 150);
    assert_eq!(m.submit(h, ALICE, true), Ok(digest(2)));
    assert_eq!(m.submit(h, ALICE, false), Ok(digest(2)));
    assert_eq!(m.all_header_hashes(1).len(), 1);
    assert_eq!(m.best_header_hash(), Some(digest(2)));
    let light = header(3, 1, 1, 20, 120);
    m.submit(light, ALICE, true).unwrap();
    assert_eq!(m.submit(light, ALICE, true), Ok(digest(2)));
    assert_eq!(m.all_header_hashes(1).len(), 2);
}

#[test]
fn missing_epoch_root_and_bad_proof() {
    let mut m = chain();
    // Height 30000 is in epoch 1, which has no root.
    let far = header(2, 1, 30_000, 50, 150);
    assert_eq!(m.submit(far, ALICE, true), Err(SubmitError::UnknownParent));
    assert_eq!(m.dag_merkle_root(0), Some([3u8; 16]));
    assert_eq!(m.dag_merkle_root(1), None);
    assert_eq!(m.submit(header(2, 1, 1, 50, 150), ALICE, false), Err(SubmitError::InvalidProof));
    assert_eq!(m.submit(header(2, 1, 1, 50, 151), ALICE, true), Err(SubmitError::BadDifficulty));
    assert_eq!(m.submit(header(2, 1, 1, 0, 100), ALICE, true), Err(SubmitError::BadDifficulty));
    assert_eq!(m.best_header_hash(), Some(digest(1)));
}

#[test]
fn missing_epoch_root_is_reported() {
    let mut m = Module::new();
    let g = header(1, 0, 29_999, 100, 100);
    m.init_with_header(0, vec![[3u8; 16]], g, 10, 10, 2, None).unwrap();
    assert_eq!(m.submit(header(2, 1, 30_000, 50, 150), ALICE, true), Err(SubmitError::MissingEpochRoot));
}

#[test]
fn trusted_signer_skips_puzzle_check() {
    let mut m = Module::new();
    let g = header(1, 0, 29_999, 100, 100);
    m.init_with_header(0, vec![], g, 10, 10, 2, Some(OPERATOR)).unwrap();
    assert_eq!(m.submit(header(2, 1, 30_000, 50, 150), ALICE, false), Err(SubmitError::MissingEpochRoot));
    assert_eq!(m.submit(header(2, 1, 30_000, 50, 150), OPERATOR, false), Ok(digest(2)));
    assert_eq!(m.submit(header(3, 2, 30_001, 50, 199), OPERATOR, false), Err(SubmitError::BadDifficulty));
}

#[test]
fn init_errors() {
    let mut m = Module::new();
    assert_eq!(
        m.init_with_header(0, vec![], genesis(), 10, 5, 2, None),
        Err(InitError::InvalidThresholds)
    );
    assert_eq!(
        m.init_with_header(0, vec![], genesis(), 0, 5, 2, None),
        Err(InitError::InvalidThresholds)
    );
    assert!(!m.initialized());
    assert_eq!(m.init(0, vec![], vec![1, 2, 3], 10, 10, 2, None), Err(InitError::MalformedGenesis));
    assert!(!m.initialized());
    m.init_with_header(0, vec![], genesis(), 10, 10, 2, None).unwrap();
    assert!(m.initialized());
    assert_eq!(
        m.init_with_header(0, vec![], genesis(), 10, 10, 2, None),
        Err(InitError::AlreadyInitialized)
    );
}

#[test]
fn gc_horizons_are_respected() {
    let mut m = chain_with(2, 4, 1);
    let mut total: u128 = 100;
    for n in 1..=8u8 {
        total += 10;
        m.submit(header(n + 1, n, n as u64, 10, total), ALICE, true).unwrap();
    }
    assert_eq!(m.last_block_number(), 8);
    // Canonical entries below 8 - 2 are gone.
    assert_eq!(m.hash_at(5), None);
    assert_eq!(m.hash_at(6), Some(digest(7)));
    // Headers below 8 - 4 are gone; those at 4 and up are kept.
    assert!(m.infos(&digest(4)).is_none());
    assert!(m.all_header_hashes(3).is_empty());
    assert_eq!(m.infos(&digest(5)).map(|i| i.number), Some(4));
}

#[test]
fn canonical_difficulty_increases() {
    let mut m = chain();
    m.submit(header(2, 1, 1, 50, 150), ALICE, true).unwrap();
    m.submit(header(3, 1, 1, 20, 120), ALICE, true).unwrap();
    m.submit(header(4, 3, 2, 180, 300), ALICE, true).unwrap();
    let mut last = 0u128;
    for h in 0..=2u64 {
        let d = m.hash_at(h).unwrap();
        let t = m.infos(&d).unwrap().total_difficulty;
        assert!(t > last);
        last = t;
    }
}

#[test]
fn best_is_heaviest() {
    let mut m = chain();
    m.submit(header(2, 1, 1, 50, 150), ALICE, true).unwrap();
    m.submit(header(3, 1, 1, 50, 150), ALICE, true).unwrap();
    // Equal difficulty keeps the first seen.
    assert_eq!(m.best_header_hash(), Some(digest(2)));
    let best = m.infos(&digest(2)).unwrap().total_difficulty;
    for d in [digest(1), digest(3)] {
        assert!(m.infos(&d).unwrap().total_difficulty <= best);
    }
}

#[test]
fn safety_is_kept_as_the_chain_grows() {
    let mut m = chain_with(10, 10, 2);
    m.submit(header(2, 1, 1, 10, 110), ALICE, true).unwrap();
    assert!(!m.is_safe(0));
    m.submit(header(3, 2, 2, 10, 120), ALICE, true).unwrap();
    assert!(m.is_safe(0));
    assert!(!m.is_safe(1));
    m.submit(header(4, 3, 3, 10, 130), ALICE, true).unwrap();
    assert!(m.is_safe(0));
    assert!(m.is_safe(1));
    assert!(!m.is_safe(7));
}

#[test]
fn init_decodes_an_rlp_genesis() {
    let g = ethereum::Header {
        parent_hash: H256::repeat_byte(1),
        ommers_hash: H256::zero(),
        beneficiary: H160::zero(),
        state_root: H256::zero(),
        transactions_root: H256::zero(),
        receipts_root: H256::zero(),
        logs_bloom: Bloom::zero(),
        difficulty: U256::from(1000u64),
        number: U256::from(42u64),
        gas_limit: U256::from(8_000_000u64),
        gas_used: U256::zero(),
        timestamp: 1_600_000_000,
        extra_data: vec![],
        mix_hash: H256::zero(),
        nonce: H64::zero(),
    };
    let payload = rlp::encode(&g);
    let mut m = Module::new();
    assert_eq!(m.init(0, vec![], payload.to_vec(), 10, 10, 2, None), Ok(()));
    assert_eq!(m.best_header_hash(), Some(g.hash().0));
    assert_eq!(m.last_block_number(), 42);
    let info = m.infos(&g.hash().0).unwrap();
    assert_eq!(info.total_difficulty, 1000);
    assert_eq!(info.parent_hash, [1u8; 32]);
}
