use staking::errors::EngineError;
use staking::validator::Validator;

const OWNER: u128 = 900;
const VAL: u128 = 901;
const ALICE: u128 = 1;
const BOB: u128 = 2;

fn conserved(v: &Validator) -> bool {
    v.total_balance >= v.total_delegated + v.owner_reward_accrued
}

#[test]
fn create_starts_empty() {
    let v = Validator::create(OWNER, VAL);
    assert_eq!(v.owner_address, OWNER);
    assert_eq!(v.validator_address, VAL);
    assert_eq!(v.total_balance, 0);
    assert_eq!(v.total_delegated, 0);
    assert_eq!(v.owner_reward_accrued, 0);
    assert_eq!(v.current_epoch, 0);
    assert!(v.get_support_indexes(ALICE).is_empty());
    assert!(conserved(&v));
}

#[test]
fn vote_files_support_at_open_epoch() {
    let mut v = Validator::create(OWNER, VAL);
    let r = v.vote(ALICE, 100, true).unwrap();
    assert_eq!(r, (0, 100));
    assert_eq!(v.total_balance, 100);
    assert_eq!(v.total_delegated, 100);
    assert_eq!(v.epochs[0].total_support, 100);
    assert_eq!(v.get_support_indexes(ALICE), vec![0]);
    assert!(conserved(&v));
    // a second vote at the same epoch accumulates
    let r = v.vote(ALICE, 50, true).unwrap();
    assert_eq!(r, (0, 150));
    assert_eq!(v.total_delegated, 150);
    assert_eq!(v.get_support_indexes(ALICE), vec![0]);
}

#[test]
fn vote_rejects_bad_signature() {
    let mut v = Validator::create(OWNER, VAL);
    assert_eq!(v.vote(ALICE, 100, false), Err(EngineError::Unauthorized));
    assert_eq!(v.total_balance, 0);
    assert_eq!(v.total_delegated, 0);
    assert!(v.get_support_indexes(ALICE).is_empty());
}

#[test]
fn new_reward_splits_owner_share() {
    let mut v = Validator::create(OWNER, VAL);
    v.vote(ALICE, 100, true).unwrap();
    v.new_reward(50);
    // 30% of 50 goes to the owner, the rest to the closed epoch
    assert_eq!(v.owner_reward_accrued, 15);
    assert_eq!(v.epochs[0].reward, 35);
    assert_eq!(v.current_epoch, 1);
    assert_eq!(v.epochs[1].total_support, 100);
    assert_eq!(v.total_balance, 150);
    assert!(conserved(&v));
}

#[test]
fn new_reward_rounds_owner_share_down() {
    let mut v = Validator::create(OWNER, VAL);
    v.new_reward(5);
    assert_eq!(v.owner_reward_accrued, 1);
    assert_eq!(v.epochs[0].reward, 4);
    v.new_reward(3);
    assert_eq!(v.owner_reward_accrued, 1);
    assert_eq!(v.epochs[1].reward, 3);
    assert!(conserved(&v));
}

#[test]
fn single_epoch_withdraw_pays_principal_and_reward() {
    // a validator with no prior delegation; one vote, one reward event,
    // one fully-caught-up withdrawal
    let mut v = Validator::create(OWNER, VAL);
    v.vote(ALICE, 100, true).unwrap();
    v.new_reward(50);
    assert!(conserved(&v));
    let quote = v.withdraw_quote(ALICE, 0, 100, true).unwrap();
    assert_eq!(quote, 135);
    let r = v.user_withdraw_amount_with_reward(ALICE, 0, 100, true).unwrap();
    assert_eq!(r, None);
    assert_eq!(v.total_delegated, 0);
    assert_eq!(v.total_balance, 15);
    assert_eq!(v.owner_reward_accrued, 15);
    assert!(v.get_support_indexes(ALICE).is_empty());
    assert!(conserved(&v));
}

#[test]
fn withdraw_rejects_bad_signature_without_mutation() {
    let mut v = Validator::create(OWNER, VAL);
    v.vote(ALICE, 100, true).unwrap();
    v.new_reward(50);
    let balance = v.total_balance;
    let delegated = v.total_delegated;
    let owner = v.owner_reward_accrued;
    let epoch = v.current_epoch;
    assert_eq!(
        v.user_withdraw_amount_with_reward(ALICE, 0, 100, false),
        Err(EngineError::Unauthorized)
    );
    assert_eq!(v.total_balance, balance);
    assert_eq!(v.total_delegated, delegated);
    assert_eq!(v.owner_reward_accrued, owner);
    assert_eq!(v.current_epoch, epoch);
    assert_eq!(v.get_support_indexes(ALICE), vec![0]);
}

#[test]
fn withdraw_rejects_unknown_record() {
    let mut v = Validator::create(OWNER, VAL);
    v.vote(ALICE, 100, true).unwrap();
    assert_eq!(
        v.user_withdraw_amount_with_reward(BOB, 0, 1, true),
        Err(EngineError::NoSuchSupport)
    );
    assert_eq!(
        v.user_withdraw_amount_with_reward(ALICE, 3, 1, true),
        Err(EngineError::NoSuchSupport)
    );
    assert_eq!(
        v.user_withdraw_amount_with_reward(ALICE, 0, 101, true),
        Err(EngineError::InsufficientSupport)
    );
    assert_eq!(v.total_delegated, 100);
}

#[test]
fn no_double_claim() {
    let mut v = Validator::create(OWNER, VAL);
    v.vote(ALICE, 100, true).unwrap();
    v.new_reward(50);
    assert_eq!(v.user_withdraw_amount_with_reward(ALICE, 0, 100, true).unwrap(), None);
    // the record is consumed: an identical second claim is refused
    assert_eq!(
        v.user_withdraw_amount_with_reward(ALICE, 0, 100, true),
        Err(EngineError::NoSuchSupport)
    );
    assert_eq!(v.total_balance, 15);
}

#[test]
fn partial_claim_leaves_remainder() {
    let mut v = Validator::create(OWNER, VAL);
    v.vote(ALICE, 100, true).unwrap();
    v.new_reward(50);
    // claim 60 of the 100: reward is 35 * 60 / 100 = 21
    assert_eq!(v.withdraw_quote(ALICE, 0, 60, true).unwrap(), 81);
    assert_eq!(v.user_withdraw_amount_with_reward(ALICE, 0, 60, true).unwrap(), None);
    assert_eq!(v.total_delegated, 40);
    assert_eq!(v.total_balance, 150 - 81);
    // a claim beyond the remainder is refused, the remainder itself is fine
    assert_eq!(
        v.user_withdraw_amount_with_reward(ALICE, 0, 60, true),
        Err(EngineError::InsufficientSupport)
    );
    assert_eq!(v.withdraw_quote(ALICE, 0, 40, true).unwrap(), 40 + 14);
    assert!(conserved(&v));
}

#[test]
fn proportional_shares_round_down() {
    let mut v = Validator::create(OWNER, VAL);
    v.vote(ALICE, 1, true).unwrap();
    v.vote(BOB, 2, true).unwrap();
    // reward 15: owner keeps 4, users share 11 over a base of 3
    v.new_reward(15);
    assert_eq!(v.owner_reward_accrued, 4);
    assert_eq!(v.epochs[0].reward, 11);
    assert_eq!(v.withdraw_quote(ALICE, 0, 1, true).unwrap(), 1 + 11 / 3);
    assert_eq!(v.withdraw_quote(BOB, 0, 2, true).unwrap(), 2 + 2 * 11 / 3);
    assert_eq!(v.user_withdraw_amount_with_reward(ALICE, 0, 1, true).unwrap(), None);
    assert_eq!(v.user_withdraw_amount_with_reward(BOB, 0, 2, true).unwrap(), None);
    assert!(conserved(&v));
    // the rounding residue stays in the pool
    assert_eq!(v.total_balance, 4 + (11 - 3 - 7));
}

#[test]
fn bounded_catchup_returns_continuation() {
    // many more closed epochs than one call may process
    let mut v = Validator::create(OWNER, VAL);
    v.vote(ALICE, 100, true).unwrap();
    for _ in 0..1002 {
        v.new_reward(10);
    }
    assert_eq!(v.current_epoch, 1002);
    assert!(conserved(&v));
    // each closed epoch carries 7 for the users; only Alice supports
    let quote = v.withdraw_quote(ALICE, 0, 100, true).unwrap();
    assert_eq!(quote, 7 * 1000);
    let r = v.user_withdraw_amount_with_reward(ALICE, 0, 100, true).unwrap();
    // exactly 1000 epochs were processed; the principal moved to epoch 1000
    assert_eq!(r, Some((1000, 100)));
    assert_eq!(v.total_delegated, 100);
    assert_eq!(v.get_support_indexes(ALICE), vec![1000]);
    assert!(conserved(&v));
    // the continuation finishes the catch-up: ceil(1002 / 1000) = 2 calls
    let (resume_epoch, balance) = r.unwrap();
    let r2 = v
        .user_withdraw_amount_with_reward(ALICE, resume_epoch, balance, true)
        .unwrap();
    assert_eq!(r2, None);
    assert_eq!(v.total_delegated, 0);
    assert_eq!(v.total_balance, v.owner_reward_accrued + (10020 - 3 * 1002 - 7 * 1002));
    assert!(v.get_support_indexes(ALICE).is_empty());
    assert!(conserved(&v));
}

#[test]
fn owner_withdraw_checks_funds_then_signature() {
    let mut v = Validator::create(OWNER, VAL);
    v.vote(ALICE, 100, true).unwrap();
    v.new_reward(50);
    assert_eq!(v.owner_reward_accrued, 15);
    // funds are checked before the signature
    assert_eq!(v.owner_withdraw_reward(16, false), Err(EngineError::InsufficientFunds));
    assert_eq!(v.owner_withdraw_reward(16, true), Err(EngineError::InsufficientFunds));
    assert_eq!(v.owner_withdraw_reward(10, false), Err(EngineError::Unauthorized));
    assert_eq!(v.owner_reward_accrued, 15);
    assert_eq!(v.total_balance, 150);
    assert_eq!(v.owner_withdraw_reward(10, true), Ok(()));
    assert_eq!(v.owner_reward_accrued, 5);
    assert_eq!(v.total_balance, 140);
    assert!(conserved(&v));
}

#[test]
fn support_indexes_track_open_records() {
    let mut v = Validator::create(OWNER, VAL);
    assert!(v.get_support_indexes(ALICE).is_empty());
    v.vote(ALICE, 10, true).unwrap();
    v.new_reward(20);
    v.vote(ALICE, 5, true).unwrap();
    let mut open = v.get_support_indexes(ALICE);
    open.sort();
    assert_eq!(open, vec![0, 1]);
    assert!(v.get_support_indexes(BOB).is_empty());
    v.user_withdraw_amount_with_reward(ALICE, 0, 10, true).unwrap();
    assert_eq!(v.get_support_indexes(ALICE), vec![1]);
}

#[test]
fn conservation_holds_along_a_mixed_run() {
    let mut v = Validator::create(OWNER, VAL);
    assert!(conserved(&v));
    v.vote(ALICE, 100, true).unwrap();
    assert!(conserved(&v));
    v.vote(BOB, 300, true).unwrap();
    assert!(conserved(&v));
    v.new_reward(77);
    assert!(conserved(&v));
    v.new_reward(123);
    assert!(conserved(&v));
    v.user_withdraw_amount_with_reward(ALICE, 0, 40, true).unwrap();
    assert!(conserved(&v));
    v.owner_withdraw_reward(30, true).unwrap();
    assert!(conserved(&v));
    v.vote(ALICE, 11, true).unwrap();
    assert!(conserved(&v));
    v.new_reward(9);
    assert!(conserved(&v));
    v.user_withdraw_amount_with_reward(BOB, 0, 300, true).unwrap();
    assert!(conserved(&v));
}
