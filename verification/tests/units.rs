use staking::entities::User;
use staking::errors::EngineError;
use staking::entities::Vote;
use staking::hasher::Hasher;
use staking::messages::owner_withdraw_message;
use staking::messages::vote_message;
use staking::messages::withdraw_message;

fn le(v: u128, n: usize) -> Vec<u8> {
    let mut out = Vec::new();
    let mut x = v;
    for _ in 0..n {
        out.push((x % 256) as u8);
        x /= 256;
    }
    out
}

#[test]
fn vote_message_packs_fields_in_order() {
    let m = vote_message(1, 2, 3);
    let mut expected = le(1, 16);
    expected.extend(le(2, 16));
    expected.extend(le(3, 8));
    assert_eq!(m, expected);
    assert_eq!(m.len(), 40);
    assert_eq!(m[0], 1);
    assert_eq!(m[16], 2);
    assert_eq!(m[32], 3);
}

#[test]
fn withdraw_message_packs_fields_in_order() {
    let m = withdraw_message(0x0102, 7, 0x01020304, 0x0505);
    let mut expected = le(0x0102, 16);
    expected.extend(le(7, 16));
    expected.extend(le(0x01020304, 4));
    expected.extend(le(0x0505, 8));
    assert_eq!(m, expected);
    assert_eq!(m.len(), 44);
    assert_eq!(m[32], 4);
    assert_eq!(m[33], 3);
}

#[test]
fn owner_withdraw_message_packs_fields_in_order() {
    let m = owner_withdraw_message(u128::MAX, 0, 1);
    let mut expected = le(u128::MAX, 16);
    expected.extend(le(0, 16));
    expected.extend(le(1, 8));
    assert_eq!(m, expected);
    assert_eq!(m[0], 255);
    assert_eq!(m[15], 255);
    assert_eq!(m[16], 0);
}

#[test]
fn hash_combines_epoch_and_address() {
    assert_eq!(Hasher::hash(2, 5), 7);
    assert_eq!(Hasher::hash(0, 0), 0);
    assert_eq!(Hasher::hash(u32::MAX, 1), u32::MAX as u128 + 1);
}

#[test]
fn engine_errors_are_distinct() {
    let all = [
        EngineError::Unauthorized,
        EngineError::NoSuchSupport,
        EngineError::InsufficientSupport,
        EngineError::InsufficientFunds,
        EngineError::EpochDataMissing,
        EngineError::SettlementFailed,
    ];
    for (i, a) in all.iter().enumerate() {
        for (j, b) in all.iter().enumerate() {
            assert_eq!(a == b, i == j);
        }
    }
}

#[test]
fn user_and_vote_constructors() {
    let u = User::new(42, 1000);
    assert_eq!(u.address, 42);
    assert_eq!(u.balance, 1000);
    let v = Vote::open(3, 50);
    assert_eq!(v.first_reward_id, 3);
    assert_eq!(v.amount, 50);
    assert!(!v.reward_taken);
}
