//! Scenario tests of the chain tracker, the store and the finality tracker,
//! on headers mined against the non-adjusting network's easy target.

use btc_light_client::chain::{ApplyOutcome, ChainTracker};
use btc_light_client::codec::{block_hash, BlockHeader};
use btc_light_client::errors::LightClientError;
use btc_light_client::finality::EpochStatus;
use btc_light_client::msg::{
    execute, query, BabylonState, ExecuteMsg, InstantiateMsg, QueryAnswer, QueryMsg,
};
use btc_light_client::pow::{meets_target, Network};

const EASY_BITS: u32 = 0x207fffff;
const BASE_TIME: u32 = 1_000_000;

/// Finds a nonce making the header meet the easy target.
fn mine(prev_hash: &[u8], merkle_seed: u8, time: u32, bits: u32) -> BlockHeader {
    let mut h = BlockHeader {
        version: 0x20000000,
        prev_blockhash: prev_hash.to_vec(),
        merkle_root: vec![merkle_seed; 32],
        time,
        bits,
        nonce: 0,
    };
    loop {
        let hash = block_hash(&h);
        if meets_target(&hash, h.bits, Network::Regtest) {
            return h;
        }
        h.nonce += 1;
    }
}

fn base_tracker(depth: u64) -> (ChainTracker, BlockHeader) {
    let base = mine(&[0u8; 32], 0, BASE_TIME, EASY_BITS);
    let t = ChainTracker::init(Network::Regtest, depth, &base.encode()).unwrap();
    (t, base)
}

/// Mines `n` children on top of the given parent, one second apart.
fn mine_chain(parent_hash: &[u8], parent_time: u32, seed: u8, n: usize) -> Vec<BlockHeader> {
    let mut out = Vec::new();
    let mut prev = parent_hash.to_vec();
    let mut time = parent_time;
    for i in 0..n {
        time += 1;
        let h = mine(&prev, seed.wrapping_add(i as u8), time, EASY_BITS);
        prev = block_hash(&h);
        out.push(h);
    }
    out
}

fn raws(hs: &[BlockHeader]) -> Vec<Vec<u8>> {
    hs.iter().map(|h| h.encode()).collect()
}

#[test]
fn extension_advances_tip_and_indexes_agree() {
    let (mut t, base) = base_tracker(5);
    let batch = mine_chain(&block_hash(&base), base.time, 10, 3);
    let out = t.apply_headers(&raws(&batch)).unwrap();
    assert_eq!(
        out,
        ApplyOutcome::Extended {
            from_height: 1,
            to_height: 3
        }
    );
    // the tip height rose by exactly the batch length
    assert_eq!(t.store.headers.len(), 4);
    // by-height and by-hash lookups agree on every new header
    for h in 1..4u64 {
        let by_height = t.store.get_by_height(h).unwrap();
        let hash = by_height.hash.clone();
        let (found_h, by_hash) = t.store.get_by_hash(&hash).unwrap();
        assert_eq!(found_h, h);
        assert_eq!(by_hash.header.encode(), batch[(h - 1) as usize].encode());
    }
}

#[test]
fn cumulative_work_never_decreases() {
    let (mut t, base) = base_tracker(5);
    let mut work = t.store.headers.last().unwrap().cum_work;
    let batch1 = mine_chain(&block_hash(&base), base.time, 20, 2);
    t.apply_headers(&raws(&batch1)).unwrap();
    let w1 = t.store.headers.last().unwrap().cum_work;
    assert!(w1 >= work);
    work = w1;
    let tip = batch1.last().unwrap();
    let batch2 = mine_chain(&block_hash(tip), tip.time, 30, 2);
    t.apply_headers(&raws(&batch2)).unwrap();
    let w2 = t.store.headers.last().unwrap().cum_work;
    assert!(w2 >= work);
}

#[test]
fn heavier_fork_reorgs_and_reports_rolled_back_hashes() {
    let (mut t, base) = base_tracker(5);
    let base_hash = block_hash(&base);
    let canonical = mine_chain(&base_hash, base.time, 40, 2);
    t.apply_headers(&raws(&canonical)).unwrap();
    let rolled_expected: Vec<Vec<u8>> = canonical.iter().map(block_hash).collect();
    // a longer branch from the base carries strictly more work
    let fork = mine_chain(&base_hash, base.time, 50, 3);
    let out = t.apply_headers(&raws(&fork)).unwrap();
    match out {
        ApplyOutcome::Reorged {
            from_height,
            to_height,
            rolled_back_hashes,
        } => {
            assert_eq!(from_height, 1);
            assert_eq!(to_height, 3);
            assert_eq!(rolled_back_hashes, rolled_expected);
        }
        other => panic!("expected a reorg, got {:?}", other),
    }
    // the fork is canonical now
    assert_eq!(t.store.headers.len(), 4);
    assert_eq!(
        t.store.headers.last().unwrap().hash,
        block_hash(fork.last().unwrap())
    );
}

#[test]
fn lighter_fork_is_retained_not_adopted() {
    let (mut t, base) = base_tracker(5);
    let base_hash = block_hash(&base);
    let canonical = mine_chain(&base_hash, base.time, 60, 3);
    t.apply_headers(&raws(&canonical)).unwrap();
    let tip_before = t.store.headers.last().unwrap().hash.clone();
    let fork = mine_chain(&base_hash, base.time, 70, 2);
    let out = t.apply_headers(&raws(&fork)).unwrap();
    assert_eq!(
        out,
        ApplyOutcome::ForkStored {
            root_height: 0,
            tip_height: 2
        }
    );
    assert_eq!(t.store.headers.last().unwrap().hash, tip_before);
    assert_eq!(t.forks.len(), 1);
}

#[test]
fn deep_fork_rejected_with_state_untouched() {
    let (mut t, base) = base_tracker(2);
    let base_hash = block_hash(&base);
    let canonical = mine_chain(&base_hash, base.time, 80, 4);
    t.apply_headers(&raws(&canonical)).unwrap();
    let before: Vec<Vec<u8>> = t.store.headers.iter().map(|s| s.hash.clone()).collect();
    // rooted at the base, four below the tip, beyond the depth of two
    let fork = mine_chain(&base_hash, base.time, 90, 6);
    let err = t.apply_headers(&raws(&fork)).unwrap_err();
    assert_eq!(err, LightClientError::ReorgTooDeep);
    let after: Vec<Vec<u8>> = t.store.headers.iter().map(|s| s.hash.clone()).collect();
    assert_eq!(before, after);
}

#[test]
fn range_pages_are_exact_and_stable() {
    let (mut t, base) = base_tracker(6);
    let batch = mine_chain(&block_hash(&base), base.time, 100, 5);
    t.apply_headers(&raws(&batch)).unwrap();
    // tip is 5; start after 1, limit 3: heights 2, 3, 4
    let page = t.store.range(Some(1), 3, false);
    assert_eq!(page.len(), 3);
    for (i, s) in page.iter().enumerate() {
        assert_eq!(s.hash, t.store.headers[2 + i].hash);
    }
    // limit exceeding the remainder returns exactly the remainder
    let page = t.store.range(Some(3), 10, false);
    assert_eq!(page.len(), 2);
    // stable across repeated identical calls
    let again = t.store.range(Some(1), 3, false);
    assert_eq!(
        page.iter().map(|s| s.hash.clone()).collect::<Vec<_>>(),
        t.store
            .range(Some(3), 10, false)
            .iter()
            .map(|s| s.hash.clone())
            .collect::<Vec<_>>()
    );
    assert_eq!(again.len(), 3);
    // descending from the tip
    let page = t.store.range(None, 2, true);
    assert_eq!(page.len(), 2);
    assert_eq!(page[0].hash, t.store.headers[5].hash);
    assert_eq!(page[1].hash, t.store.headers[4].hash);
}

#[test]
fn validation_error_variants() {
    let (mut t, base) = base_tracker(5);
    let base_hash = block_hash(&base);
    // malformed: not 80 bytes
    assert_eq!(
        t.apply_headers(&vec![vec![0u8; 79]]).unwrap_err(),
        LightClientError::MalformedHeader { index: 0 }
    );
    // unknown parent
    let stray = mine(&[7u8; 32], 1, BASE_TIME + 1, EASY_BITS);
    assert_eq!(
        t.apply_headers(&raws(&[stray])).unwrap_err(),
        LightClientError::UnknownParent { index: 0 }
    );
    // insufficient work: a nonce whose hash misses the target
    let mut weak = mine(&base_hash, 2, BASE_TIME + 1, EASY_BITS);
    loop {
        let hash = block_hash(&weak);
        if !meets_target(&hash, weak.bits, Network::Regtest) {
            break;
        }
        weak.nonce += 1;
    }
    assert_eq!(
        t.apply_headers(&raws(&[weak])).unwrap_err(),
        LightClientError::InsufficientWork { index: 0 }
    );
    // wrong difficulty bits: the non-adjusting network owes the same bits
    let other_bits = mine(&base_hash, 3, BASE_TIME + 1, 0x207ffffe);
    assert_eq!(
        t.apply_headers(&raws(&[other_bits])).unwrap_err(),
        LightClientError::BadDifficulty { index: 0 }
    );
    // timestamp not above the median-time-past
    let stale = mine(&base_hash, 4, BASE_TIME, EASY_BITS);
    assert_eq!(
        t.apply_headers(&raws(&[stale])).unwrap_err(),
        LightClientError::BadTimestamp { index: 0 }
    );
}

fn state_with_depth(depth: u64, notify: bool) -> (BabylonState, BlockHeader) {
    let base = mine(&[0u8; 32], 0, BASE_TIME, EASY_BITS);
    let msg = InstantiateMsg {
        network: Network::Regtest,
        babylon_tag: "01020304".to_string(),
        btc_confirmation_depth: depth,
        checkpoint_finalization_timeout: 100,
        notify_cosmos_zone: notify,
        btc_staking_code_id: None,
        admin: None,
    };
    let s = BabylonState::new_state(&msg, &base.encode(), 0).unwrap();
    (s, base)
}

fn epoch_status(s: &BabylonState, number: u64) -> EpochStatus {
    match query(s, &QueryMsg::BabylonEpoch { epoch_number: number }).unwrap() {
        QueryAnswer::Epoch(e) => e.epoch.status,
        other => panic!("expected an epoch, got {:?}", other),
    }
}

#[test]
fn epoch_confirms_exactly_when_buried_and_finalizes_on_ack() {
    let (mut s, base) = state_with_depth(3, true);
    let batch = mine_chain(&block_hash(&base), base.time, 110, 2);
    execute(&mut s, ExecuteMsg::BtcHeaders { headers: raws(&batch) }).unwrap();
    // anchor epoch 0 at height 1; tip is 2, depth 3: not buried yet
    execute(
        &mut s,
        ExecuteMsg::Checkpoint {
            epoch_number: 0,
            first_height: 1,
            last_height: 1,
        },
    )
    .unwrap();
    assert_eq!(epoch_status(&s, 0), EpochStatus::Submitted);
    // one more header: tip 3, still 1 + 3 > 3
    let tip = batch.last().unwrap();
    let batch2 = mine_chain(&block_hash(tip), tip.time, 120, 1);
    execute(&mut s, ExecuteMsg::BtcHeaders { headers: raws(&batch2) }).unwrap();
    assert_eq!(epoch_status(&s, 0), EpochStatus::Submitted);
    // tip 4: 1 + 3 <= 4, confirmed exactly now
    let tip = batch2.last().unwrap();
    let batch3 = mine_chain(&block_hash(tip), tip.time, 130, 1);
    execute(&mut s, ExecuteMsg::BtcHeaders { headers: raws(&batch3) }).unwrap();
    assert_eq!(epoch_status(&s, 0), EpochStatus::Confirmed);
    // finalized only after the external acknowledgment
    execute(&mut s, ExecuteMsg::CheckpointAck { epoch_number: 0 }).unwrap();
    assert_eq!(epoch_status(&s, 0), EpochStatus::Finalized);
}

#[test]
fn epoch_finalizes_without_ack_when_notification_disabled() {
    let (mut s, base) = state_with_depth(2, false);
    execute(
        &mut s,
        ExecuteMsg::Checkpoint {
            epoch_number: 0,
            first_height: 0,
            last_height: 0,
        },
    )
    .unwrap();
    // the base anchor is buried once the tip reaches the depth
    let batch = mine_chain(&block_hash(&base), base.time, 140, 2);
    execute(&mut s, ExecuteMsg::BtcHeaders { headers: raws(&batch) }).unwrap();
    assert_eq!(epoch_status(&s, 0), EpochStatus::Finalized);
}

#[test]
fn reorg_orphans_unconfirmed_epoch() {
    let (mut s, base) = state_with_depth(5, true);
    let base_hash = block_hash(&base);
    let canonical = mine_chain(&base_hash, base.time, 150, 2);
    execute(
        &mut s,
        ExecuteMsg::BtcHeaders { headers: raws(&canonical) },
    )
    .unwrap();
    execute(
        &mut s,
        ExecuteMsg::Checkpoint {
            epoch_number: 0,
            first_height: 2,
            last_height: 2,
        },
    )
    .unwrap();
    assert_eq!(epoch_status(&s, 0), EpochStatus::Submitted);
    // a heavier fork from the base rolls the anchor back
    let fork = mine_chain(&base_hash, base.time, 160, 3);
    execute(&mut s, ExecuteMsg::BtcHeaders { headers: raws(&fork) }).unwrap();
    assert_eq!(epoch_status(&s, 0), EpochStatus::Orphaned);
}

#[test]
fn queries_answer_from_committed_state() {
    let (mut s, base) = state_with_depth(4, false);
    let batch = mine_chain(&block_hash(&base), base.time, 170, 2);
    execute(&mut s, ExecuteMsg::BtcHeaders { headers: raws(&batch) }).unwrap();
    match query(&s, &QueryMsg::BtcTipHeader {}).unwrap() {
        QueryAnswer::Header(h) => {
            assert_eq!(h.height, 2);
            assert_eq!(h.hash, block_hash(batch.last().unwrap()));
        }
        other => panic!("expected a header, got {:?}", other),
    }
    match query(&s, &QueryMsg::BtcBaseHeader {}).unwrap() {
        QueryAnswer::Header(h) => assert_eq!(h.height, 0),
        other => panic!("expected a header, got {:?}", other),
    }
    // lookup by byte-reversed hex hash
    let tip_hash = block_hash(batch.last().unwrap());
    let reversed: Vec<u8> = tip_hash.iter().rev().cloned().collect();
    let hash_hex = hex::encode(&reversed);
    match query(&s, &QueryMsg::BtcHeaderByHash { hash: hash_hex }).unwrap() {
        QueryAnswer::Header(h) => assert_eq!(h.height, 2),
        other => panic!("expected a header, got {:?}", other),
    }
    // a miss is an explicit error
    assert_eq!(
        query(&s, &QueryMsg::BtcHeader { height: 9 }).unwrap_err(),
        LightClientError::NotFound
    );
    assert_eq!(
        query(&s, &QueryMsg::BabylonEpoch { epoch_number: 7 }).unwrap_err(),
        LightClientError::NotFound
    );
}

#[test]
fn stale_fork_branches_are_evicted_as_tip_advances() {
    let (mut t, base) = base_tracker(2);
    let base_hash = block_hash(&base);
    let canonical = mine_chain(&base_hash, base.time, 180, 3);
    t.apply_headers(&raws(&canonical)).unwrap();
    // two lighter forks: one rooted at height 1, one at height 2
    let fork_low = mine_chain(&block_hash(&canonical[0]), canonical[0].time, 190, 1);
    t.apply_headers(&raws(&fork_low)).unwrap();
    let fork_high = mine_chain(&block_hash(&canonical[1]), canonical[1].time, 200, 1);
    t.apply_headers(&raws(&fork_high)).unwrap();
    assert_eq!(t.forks.len(), 2);
    // tip 4: the cutoff is 2, so the branch rooted at 1 goes and the one
    // rooted exactly at the cutoff stays
    let tip = canonical.last().unwrap();
    let ext = mine_chain(&block_hash(tip), tip.time, 210, 1);
    t.apply_headers(&raws(&ext)).unwrap();
    assert_eq!(t.forks.len(), 1);
    assert_eq!(t.forks[0].root_height, 2);
}
