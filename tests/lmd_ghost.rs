use fork_choice::slow_lmd_ghost::SlowLMDGhost;
use fork_choice::store::{BlockStore, StateStore};
use fork_choice::types::{
    weight, BeaconBlock, BeaconState, Error, Hash256, Outcome, Validator,
};

const GWEI: u64 = 1_000_000_000;

fn root(n: u64) -> Hash256 {
    Hash256::from_low_u64_be(n)
}

fn block(parent: u64, state: u64, slot: u64) -> BeaconBlock {
    BeaconBlock {
        parent_root: root(parent),
        state_root: root(state),
        slot,
    }
}

fn active() -> Validator {
    Validator {
        activation_epoch: 0,
        exit_epoch: u64::MAX,
    }
}

fn state(balances: Vec<u64>) -> BeaconState {
    BeaconState {
        validator_registry: balances.iter().map(|_| active()).collect(),
        validator_balances: balances,
    }
}

const R: u64 = 1;
const S: u64 = 100;

/// Stores every block, builds the engine and records every block as a child.
fn engine(blocks: &[(u64, BeaconBlock)], states: Vec<(u64, BeaconState)>) -> SlowLMDGhost {
    let mut bs = BlockStore::new();
    bs.put(root(R), block(0, S, 0));
    for (r, b) in blocks {
        bs.put(root(*r), *b);
    }
    let mut ss = StateStore::new();
    for (r, s) in states {
        ss.put(root(r), s);
    }
    let mut g = SlowLMDGhost::new(bs, ss);
    for (r, b) in blocks {
        assert_eq!(g.add_block(b, &root(*r)), Ok(()));
    }
    g
}

const A: u64 = 2;
const B: u64 = 3;
const A1: u64 = 4;
const B1: u64 = 5;
const B2: u64 = 6;

#[test]
fn single_chain_without_votes_stays_at_root() {
    let mut g = engine(
        &[(A, block(R, S, 1)), (B, block(A, S, 2))],
        vec![(S, state(vec![GWEI; 3]))],
    );
    assert_eq!(g.find_head(&root(R)), Ok(root(R)));
}

#[test]
fn two_forks_majority_wins() {
    let mut g = engine(
        &[(A, block(R, S, 1)), (B, block(R, S, 1))],
        vec![(S, state(vec![GWEI; 4]))],
    );
    g.add_attestation(1, &root(A)).unwrap();
    g.add_attestation(2, &root(A)).unwrap();
    g.add_attestation(3, &root(B)).unwrap();
    assert_eq!(g.find_head(&root(R)), Ok(root(A)));
}

#[test]
fn two_forks_minority_listed_first_loses() {
    let mut g = engine(
        &[(B, block(R, S, 1)), (A, block(R, S, 1))],
        vec![(S, state(vec![GWEI; 4]))],
    );
    g.add_attestation(1, &root(A)).unwrap();
    g.add_attestation(2, &root(A)).unwrap();
    g.add_attestation(3, &root(B)).unwrap();
    assert_eq!(g.find_head(&root(R)), Ok(root(A)));
}

#[test]
fn tie_goes_to_smaller_root() {
    let mut g = engine(
        &[(B, block(R, S, 1)), (A, block(R, S, 1))],
        vec![(S, state(vec![GWEI; 4]))],
    );
    g.add_attestation(1, &root(A)).unwrap();
    g.add_attestation(2, &root(B)).unwrap();
    assert_eq!(g.find_head(&root(R)), Ok(root(A)));
}

#[test]
fn order_of_add_block_does_not_matter() {
    let mut g1 = engine(
        &[(A, block(R, S, 1)), (B, block(R, S, 1))],
        vec![(S, state(vec![GWEI; 4]))],
    );
    let mut g2 = engine(
        &[(B, block(R, S, 1)), (A, block(R, S, 1))],
        vec![(S, state(vec![GWEI; 4]))],
    );
    assert_eq!(g1.children_of(&root(R)), vec![root(A), root(B)]);
    assert_eq!(g2.children_of(&root(R)), vec![root(A), root(B)]);
    for g in [&mut g1, &mut g2] {
        g.add_attestation(1, &root(A)).unwrap();
        g.add_attestation(2, &root(B)).unwrap();
    }
    assert_eq!(g1.find_head(&root(R)), g2.find_head(&root(R)));
    assert_eq!(g1.find_head(&root(R)), Ok(root(A)));
}

#[test]
fn children_are_kept_in_root_order() {
    let mut g = engine(
        &[(9, block(R, S, 1)), (A, block(R, S, 1)), (7, block(R, S, 1)), (B, block(R, S, 1))],
        vec![(S, state(vec![GWEI]))],
    );
    assert_eq!(g.children_of(&root(R)), vec![root(A), root(B), root(7), root(9)]);
    let high = Hash256 { w0: 1, w1: 0, w2: 0, w3: 0 };
    g.add_block(&block(R, S, 1), &high).unwrap();
    assert_eq!(g.children_of(&root(R)), vec![root(A), root(B), root(7), root(9), high]);
}

#[test]
fn extra_balances_are_ignored() {
    let st = BeaconState {
        validator_registry: vec![active(), active()],
        validator_balances: vec![GWEI, 3 * GWEI, 5 * GWEI],
    };
    let mut g = engine(&[(A, block(R, S, 1))], vec![(S, st)]);
    g.add_attestation(0, &root(A)).unwrap();
    g.add_attestation(1, &root(A)).unwrap();
    g.add_attestation(2, &root(A)).unwrap();
    assert_eq!(g.get_latest_votes(&root(S), 0), Ok(vec![(root(A), 4)]));
    assert_eq!(g.find_head(&root(R)), Ok(root(A)));
}

fn deep_fork() -> SlowLMDGhost {
    engine(
        &[
            (A, block(R, S, 1)),
            (A1, block(A, S, 2)),
            (B, block(R, S, 1)),
            (B1, block(B, S, 2)),
            (B2, block(B1, S, 3)),
        ],
        vec![(S, state(vec![GWEI; 4]))],
    )
}

#[test]
fn deep_fork_heavier_subtree_wins() {
    let mut g = deep_fork();
    g.add_attestation(1, &root(A1)).unwrap();
    g.add_attestation(2, &root(B2)).unwrap();
    g.add_attestation(3, &root(B2)).unwrap();
    assert_eq!(g.find_head(&root(R)), Ok(root(B2)));
}

#[test]
fn find_head_twice_gives_same_root() {
    let mut g = deep_fork();
    g.add_attestation(1, &root(A1)).unwrap();
    g.add_attestation(2, &root(B2)).unwrap();
    let first = g.find_head(&root(R));
    let second = g.find_head(&root(R));
    assert_eq!(first, second);
    assert_eq!(first, Ok(root(A1)));
}

#[test]
fn head_descends_from_child_that_all_votes_support() {
    let mut g = deep_fork();
    g.add_attestation(1, &root(B1)).unwrap();
    g.add_attestation(2, &root(B2)).unwrap();
    let head = g.find_head(&root(R)).unwrap();
    assert_eq!(head, root(B2));
    assert_eq!(g.find_head(&root(B)), Ok(root(B2)));
}

#[test]
fn monotone_attestation_keeps_higher_slot() {
    let x = 7;
    let y = 8;
    let mut g = engine(
        &[(x, block(R, S, 4)), (y, block(R, S, 2))],
        vec![(S, state(vec![GWEI; 6]))],
    );
    assert_eq!(g.add_attestation(5, &root(x)), Ok(()));
    assert_eq!(g.add_attestation(5, &root(y)), Ok(()));
    assert_eq!(g.latest_attestation_target(5), Some(root(x)));
}

#[test]
fn later_attestation_with_higher_slot_replaces() {
    let x = 7;
    let y = 8;
    let mut g = engine(
        &[(x, block(R, S, 4)), (y, block(R, S, 2))],
        vec![(S, state(vec![GWEI; 6]))],
    );
    g.add_attestation(5, &root(y)).unwrap();
    g.add_attestation(5, &root(x)).unwrap();
    assert_eq!(g.latest_attestation_target(5), Some(root(x)));
}

#[test]
fn attestation_with_equal_slot_keeps_earlier() {
    let mut g = engine(
        &[(A, block(R, S, 1)), (B, block(R, S, 1))],
        vec![(S, state(vec![GWEI; 2]))],
    );
    g.add_attestation(1, &root(A)).unwrap();
    g.add_attestation(1, &root(B)).unwrap();
    assert_eq!(g.latest_attestation_target(1), Some(root(A)));
}

#[test]
fn first_attestation_is_taken_even_for_unknown_root() {
    let mut g = engine(&[(A, block(R, S, 1))], vec![(S, state(vec![GWEI; 2]))]);
    assert_eq!(g.add_attestation(1, &root(0)), Ok(()));
    assert_eq!(g.latest_attestation_target(1), Some(root(0)));
    assert_eq!(g.add_attestation(1, &root(A)), Err(Error::MissingBeaconBlock(root(0))));
    assert_eq!(g.latest_attestation_target(1), Some(root(0)));
}

#[test]
fn attestation_to_unknown_block_fails_and_changes_nothing() {
    let mut g = engine(&[(A, block(R, S, 1))], vec![(S, state(vec![GWEI; 2]))]);
    g.add_attestation(1, &root(A)).unwrap();
    assert_eq!(g.add_attestation(1, &root(99)), Err(Error::MissingBeaconBlock(root(99))));
    assert_eq!(g.latest_attestation_target(1), Some(root(A)));
}

#[test]
fn zero_balance_never_counts() {
    let mut g = engine(
        &[(A, block(R, S, 1)), (B, block(R, S, 1))],
        vec![(S, state(vec![GWEI, 0, 0, 0]))],
    );
    g.add_attestation(0, &root(A)).unwrap();
    g.add_attestation(1, &root(B)).unwrap();
    g.add_attestation(2, &root(B)).unwrap();
    g.add_attestation(3, &root(B)).unwrap();
    assert_eq!(g.find_head(&root(R)), Ok(root(A)));
    assert_eq!(g.get_latest_votes(&root(S), 0), Ok(vec![(root(A), 1)]));
}

#[test]
fn zero_balance_alone_leaves_head_at_root() {
    let mut g = engine(&[(A, block(R, S, 1))], vec![(S, state(vec![0, 0]))]);
    g.add_attestation(1, &root(A)).unwrap();
    assert_eq!(g.get_latest_votes(&root(S), 0), Ok(vec![]));
    assert_eq!(g.find_head(&root(R)), Ok(root(R)));
}

#[test]
fn missing_state_fails_and_leaves_indices() {
    let mut g = engine(&[(A, block(R, S, 1))], vec![]);
    g.add_attestation(1, &root(A)).unwrap();
    assert_eq!(g.find_head(&root(R)), Err(Error::MissingBeaconState(root(S))));
    assert_eq!(g.latest_attestation_target(1), Some(root(A)));
    assert_eq!(g.children_of(&root(R)), vec![root(A)]);
}

#[test]
fn missing_justified_block_fails() {
    let mut g = engine(&[], vec![(S, state(vec![GWEI]))]);
    assert_eq!(g.find_head(&root(42)), Err(Error::MissingBeaconBlock(root(42))));
}

#[test]
fn malformed_state_is_rejected() {
    let bad = BeaconState {
        validator_registry: vec![active(), active()],
        validator_balances: vec![GWEI],
    };
    let mut g = engine(&[(A, block(R, S, 1))], vec![(S, bad)]);
    assert_eq!(g.find_head(&root(R)), Err(Error::InvalidBeaconState(root(S))));
}

#[test]
fn vote_for_unknown_target_fails_head() {
    let mut g = engine(&[(A, block(R, S, 1))], vec![(S, state(vec![GWEI; 2]))]);
    g.add_attestation(1, &root(77)).unwrap();
    assert_eq!(g.find_head(&root(R)), Err(Error::MissingBeaconBlock(root(77))));
}

#[test]
fn duplicate_add_block_keeps_one_child() {
    let mut g = engine(&[(A, block(R, S, 1))], vec![(S, state(vec![GWEI]))]);
    assert_eq!(g.add_block(&block(R, S, 1), &root(A)), Ok(()));
    assert_eq!(g.add_block(&block(R, S, 1), &root(A)), Ok(()));
    assert_eq!(g.children_of(&root(R)), vec![root(A)]);
    assert_eq!(g.children_of(&root(A)), vec![]);
}

#[test]
fn cycle_in_child_index_is_reported() {
    let mut g = engine(&[(A, block(R, S, 1))], vec![(S, state(vec![GWEI; 2]))]);
    g.add_block(&block(A, S, 0), &root(R)).unwrap();
    g.add_attestation(1, &root(A)).unwrap();
    assert_eq!(g.find_head(&root(R)), Err(Error::GraphTooDeep));
}

#[test]
fn weight_is_capped_and_rounded_down() {
    assert_eq!(weight(0), 0);
    assert_eq!(weight(GWEI - 1), 0);
    assert_eq!(weight(GWEI), 1);
    assert_eq!(weight(3 * GWEI / 2), 1);
    assert_eq!(weight(32 * GWEI), 32);
    assert_eq!(weight(64 * GWEI), 32);
    assert_eq!(weight(u64::MAX), 32);
}

#[test]
fn latest_votes_sum_weights_per_target() {
    let mut st = state(vec![40 * GWEI, 2 * GWEI, 5 * GWEI, 7 * GWEI]);
    st.validator_registry[3] = Validator {
        activation_epoch: 0,
        exit_epoch: 1,
    };
    let mut g = engine(&[(A, block(R, S, 1)), (B, block(R, S, 1))], vec![(S, st)]);
    g.add_attestation(0, &root(B)).unwrap();
    g.add_attestation(1, &root(A)).unwrap();
    g.add_attestation(2, &root(B)).unwrap();
    g.add_attestation(3, &root(A)).unwrap();
    assert_eq!(g.get_latest_votes(&root(S), 0), Ok(vec![(root(B), 37), (root(A), 9)]));
    assert_eq!(g.get_latest_votes(&root(S), 64), Ok(vec![(root(B), 37), (root(A), 2)]));
    assert_eq!(g.get_latest_votes(&root(9), 0), Err(Error::MissingBeaconState(root(9))));
}

#[test]
fn block_at_slot_walks_to_ancestor() {
    let mut bs = BlockStore::new();
    bs.put(root(R), block(0, S, 0));
    bs.put(root(A), block(R, S, 1));
    bs.put(root(B), block(A, S, 3));
    assert_eq!(bs.block_at_slot(&root(B), 5), Ok((root(B), 3)));
    assert_eq!(bs.block_at_slot(&root(B), 3), Ok((root(B), 3)));
    assert_eq!(bs.block_at_slot(&root(B), 2), Ok((root(A), 1)));
    assert_eq!(bs.block_at_slot(&root(B), 0), Ok((root(R), 0)));
    assert_eq!(bs.block_at_slot(&root(9), 0), Err(Error::MissingBeaconBlock(root(9))));
    bs.put(root(7), block(8, S, 4));
    assert_eq!(bs.block_at_slot(&root(7), 1), Err(Error::MissingBeaconBlock(root(8))));
    bs.put(root(10), block(B, S, 2));
    assert_eq!(bs.block_at_slot(&root(10), 0), Err(Error::InvalidBeaconBlock(root(B))));
}

#[test]
fn store_put_replaces_and_get_reads() {
    let mut bs = BlockStore::new();
    assert_eq!(bs.get(&root(A)), None);
    bs.put(root(A), block(R, S, 1));
    bs.put(root(A), block(R, S, 9));
    assert_eq!(bs.get(&root(A)), Some(block(R, S, 9)));
    let mut ss = StateStore::new();
    assert!(ss.get(&root(S)).is_none());
    ss.put(root(S), state(vec![GWEI]));
    assert_eq!(ss.get(&root(S)).unwrap().validator_balances, vec![GWEI]);
}

#[test]
fn hash_and_outcome_values() {
    assert_eq!(Hash256::zero(), root(0));
    assert_ne!(root(1), root(2));
    assert!(active().is_active_at(5));
    assert!(!Validator { activation_epoch: 3, exit_epoch: 5 }.is_active_at(5));
    assert_eq!(Outcome::Something, Outcome::Something);
}

#[test]
fn root_order_is_by_words_from_the_first() {
    let a = Hash256 { w0: 0, w1: 5, w2: 0, w3: 9 };
    let b = Hash256 { w0: 0, w1: 6, w2: 0, w3: 1 };
    assert!(a.precedes(&b));
    assert!(!b.precedes(&a));
    assert!(!a.precedes(&a));
    assert!(root(2).precedes(&root(3)));
    assert!(!Hash256 { w0: 1, w1: 0, w2: 0, w3: 0 }.precedes(&root(u64::MAX)));
}
