use stake_calls::call_registry::CallRegistry;
use stake_calls::codec::outcome_message;
use stake_calls::outcome_manager::{compute_payout, OutcomeError, OutcomeManagerContract};
use stake_calls::types::{Address, Bytes32, Event};

fn addr(n: u8) -> Address {
    Bytes32::from_array([n; 32])
}

fn initialized(owner: Address) -> OutcomeManagerContract {
    let mut m = OutcomeManagerContract::new();
    m.initialize(owner, addr(200)).unwrap();
    m
}

#[test]
fn test_initialize() {
    let owner = addr(100);
    let m = initialized(owner);
    assert!(!m.is_authorized_oracle(Bytes32::from_array([1; 32])));
}

#[test]
fn initialize_twice_fails() {
    let mut m = initialized(addr(100));
    assert_eq!(m.initialize(addr(101), addr(201)), Err(OutcomeError::AlreadyInitialized));
    assert_eq!(m.owner, Some(addr(100)));
}

#[test]
fn test_set_oracle() {
    let owner = addr(100);
    let mut m = initialized(owner);
    let oracle = Bytes32::from_array([2; 32]);
    m.set_oracle(owner, oracle, true).unwrap();
    assert!(m.is_authorized_oracle(oracle));
    m.set_oracle(owner, oracle, false).unwrap();
    assert!(!m.is_authorized_oracle(oracle));
    assert_eq!(m.oracles.len(), 1);
    assert!(matches!(m.events.last().unwrap(), Event::OracleUpdated(k, false) if *k == oracle));
}

#[test]
fn set_oracle_errors() {
    let mut fresh = OutcomeManagerContract::new();
    let oracle = Bytes32::from_array([2; 32]);
    assert_eq!(fresh.set_oracle(addr(100), oracle, true), Err(OutcomeError::NotInitialized));
    let mut m = initialized(addr(100));
    assert_eq!(m.set_oracle(addr(5), oracle, true), Err(OutcomeError::AuthenticationFailed));
    assert!(!m.is_authorized_oracle(oracle));
}

#[test]
fn test_register_call() {
    let mut m = initialized(addr(100));
    let call_id = 1u64;
    m.register_call(call_id, addr(7), 1000, 500, 1000000).unwrap();
    let call = m.get_call(call_id);
    assert!(call.is_some());
    let data = call.unwrap();
    assert_eq!(data.id, call_id);
    assert_eq!(data.long_tokens, 1000);
    assert_eq!(data.short_tokens, 500);
    assert!(!data.settled);
    assert_eq!(data.outcome, None);
    assert!(m.get_call(2).is_none());
}

#[test]
fn test_submit_outcome_success() {
    let owner = addr(100);
    let mut m = initialized(owner);
    let oracle = Bytes32::from_array([4; 32]);
    m.set_oracle(owner, oracle, true).unwrap();
    let call_id = 1u64;
    m.register_call(call_id, addr(7), 1000, 500, 1000000).unwrap();
    let msg = m.submission_message(call_id, true, 42, 77).unwrap();
    assert_eq!(msg, outcome_message(call_id, true, 42, 77));
    assert_eq!(m.submit_outcome(call_id, true, 42, 77, oracle, true), Ok(true));
    let data = m.get_call(call_id).unwrap();
    assert!(data.settled);
    assert_eq!(data.outcome, Some(true));
    assert_eq!(data.final_price, Some(42));
    assert!(matches!(m.events.last().unwrap(), Event::OutcomeSubmitted(1, true, 42, k) if *k == oracle));
}

#[test]
fn submit_outcome_errors_in_order() {
    let owner = addr(100);
    let mut m = initialized(owner);
    let oracle = Bytes32::from_array([4; 32]);
    let stranger = Bytes32::from_array([5; 32]);
    m.set_oracle(owner, oracle, true).unwrap();
    m.register_call(1, addr(7), 1000, 500, 1000000).unwrap();
    assert_eq!(m.submit_outcome(2, true, 1, 1, oracle, true), Err(OutcomeError::CallNotFound));
    assert_eq!(m.submission_message(2, true, 1, 1), Err(OutcomeError::CallNotFound));
    // a bad signature is refused before the oracle set is read
    assert_eq!(m.submit_outcome(1, true, 1, 1, stranger, false), Err(OutcomeError::InvalidSignature));
    assert_eq!(m.submit_outcome(1, true, 1, 1, oracle, false), Err(OutcomeError::InvalidSignature));
    assert_eq!(m.submit_outcome(1, true, 1, 1, stranger, true), Err(OutcomeError::OracleNotAuthorized));
    assert!(!m.get_call(1).unwrap().settled);
    // revoked after signing
    m.set_oracle(owner, oracle, false).unwrap();
    assert_eq!(m.submit_outcome(1, true, 1, 1, oracle, true), Err(OutcomeError::OracleNotAuthorized));
    assert!(!m.get_call(1).unwrap().settled);
    m.set_oracle(owner, oracle, true).unwrap();
    assert_eq!(m.submit_outcome(1, false, 9, 1, oracle, true), Ok(true));
    assert_eq!(m.submit_outcome(1, true, 1, 1, oracle, true), Err(OutcomeError::CallAlreadySettled));
    assert_eq!(m.submission_message(1, true, 1, 1), Err(OutcomeError::CallAlreadySettled));
    assert_eq!(m.get_call(1).unwrap().outcome, Some(false));
    assert_eq!(m.get_call(1).unwrap().final_price, Some(9));
}

#[test]
fn test_withdraw_payout_long_wins() {
    let owner = addr(100);
    let mut m = initialized(owner);
    let oracle = Bytes32::from_array([4; 32]);
    m.set_oracle(owner, oracle, true).unwrap();
    let call_id = 1u64;
    m.register_call(call_id, addr(7), 1000, 500, 1000000).unwrap();
    m.submit_outcome(call_id, true, 5, 5, oracle, true).unwrap();
    let long_user = addr(10);
    let short_user = addr(11);
    assert_eq!(m.withdraw_payout(long_user, call_id, long_user, 1000, true), Ok(1500));
    assert_eq!(m.withdraw_payout(short_user, call_id, short_user, 500, false), Ok(0));
}

#[test]
fn test_has_withdrawn() {
    let m = initialized(addr(100));
    assert!(!m.has_withdrawn(1, addr(10)));
}

#[test]
fn withdraw_errors() {
    let owner = addr(100);
    let mut m = initialized(owner);
    let oracle = Bytes32::from_array([4; 32]);
    let user = addr(10);
    m.set_oracle(owner, oracle, true).unwrap();
    m.register_call(1, addr(7), 1000, 500, 1000000).unwrap();
    assert_eq!(m.withdraw_payout(addr(11), 1, user, 10, true), Err(OutcomeError::AuthenticationFailed));
    assert_eq!(m.withdraw_payout(user, 2, user, 10, true), Err(OutcomeError::CallNotFound));
    assert_eq!(m.withdraw_payout(user, 1, user, 10, true), Err(OutcomeError::CallNotSettled));
    assert!(!m.has_withdrawn(1, user));
    m.register_call(3, addr(7), 0, 500, 1000000).unwrap();
    m.submit_outcome(3, true, 1, 1, oracle, true).unwrap();
    assert_eq!(m.withdraw_payout(user, 3, user, 10, true), Err(OutcomeError::EmptyWinningPool));
    m.register_call(4, addr(7), 1, u128::MAX, 1000000).unwrap();
    m.submit_outcome(4, true, 1, 1, oracle, true).unwrap();
    assert_eq!(m.withdraw_payout(user, 4, user, 2, true), Err(OutcomeError::PayoutOverflow));
    assert!(!m.has_withdrawn(4, user));
}

#[test]
fn withdraw_twice_fails() {
    let owner = addr(100);
    let mut m = initialized(owner);
    let oracle = Bytes32::from_array([4; 32]);
    let user = addr(10);
    m.set_oracle(owner, oracle, true).unwrap();
    m.register_call(1, addr(7), 100, 50, 1000000).unwrap();
    m.submit_outcome(1, true, 1, 1, oracle, true).unwrap();
    assert_eq!(m.withdraw_payout(user, 1, user, 100, true), Ok(150));
    assert!(m.has_withdrawn(1, user));
    assert!(matches!(m.events.last().unwrap(), Event::PayoutWithdrawn(1, u, 150) if *u == user));
    assert_eq!(m.withdraw_payout(user, 1, user, 100, true), Err(OutcomeError::AlreadyWithdrawn));
    assert_eq!(m.withdraw_payout(user, 1, user, 1, false), Err(OutcomeError::AlreadyWithdrawn));
    // a losing claim is recorded too
    let loser = addr(11);
    assert_eq!(m.withdraw_payout(loser, 1, loser, 50, false), Ok(0));
    assert_eq!(m.withdraw_payout(loser, 1, loser, 50, true), Err(OutcomeError::AlreadyWithdrawn));
}

#[test]
fn payout_formula() {
    assert_eq!(compute_payout(true, 100, 50, 100, true), Ok(150));
    assert_eq!(compute_payout(true, 100, 50, 50, false), Ok(0));
    assert_eq!(compute_payout(false, 300, 200, 70, false), Ok(70 + 70 * 300 / 200));
    assert_eq!(compute_payout(true, 3, 10, 1, true), Ok(1 + 3));
    assert_eq!(compute_payout(false, 10, 0, 1, false), Err(OutcomeError::EmptyWinningPool));
    // the product of stake and losing pool exceeds 128 bits, the payout does not
    assert_eq!(compute_payout(true, 7, u128::MAX, 3, true), Ok(145835300108973627198589117470757804912));
    assert_eq!(compute_payout(true, 1 << 64, 1 << 64, 1 << 64, true), Ok(1 << 65));
    assert_eq!(
        compute_payout(false, (1 << 127) + 99, (1 << 120) + 7, (1 << 100) + 12345, false),
        Ok(163526927429441592793074715086008)
    );
    // the payout itself exceeds 128 bits
    assert_eq!(compute_payout(true, 1, u128::MAX, 2, true), Err(OutcomeError::PayoutOverflow));
    assert_eq!(compute_payout(true, 1, 1, u128::MAX, true), Err(OutcomeError::PayoutOverflow));
    assert_eq!(compute_payout(true, 4, 1, u128::MAX / 5 * 4, true), Ok(u128::MAX));
    assert_eq!(compute_payout(true, 2, 1, u128::MAX, true), Err(OutcomeError::PayoutOverflow));
}

#[test]
fn payouts_never_exceed_both_pools() {
    // winners 1, 1, 1 share a losing pool of 2
    let stakes = [1u128, 1, 1];
    let total: u128 = stakes.iter().map(|s| compute_payout(true, 3, 2, *s, true).unwrap()).sum();
    assert!(total <= 3 + 2);
    assert!(total + stakes.len() as u128 >= 3 + 2);
    assert_eq!(total, 3);
    let stakes = [60u128, 25, 15];
    let total: u128 = stakes.iter().map(|s| compute_payout(false, 77, 100, *s, false).unwrap()).sum();
    assert!(total <= 177 && total + 3 >= 177);
}

#[test]
fn scenario_stake_settle_withdraw() {
    let creator = addr(1);
    let second = addr(2);
    let owner = addr(100);
    let oracle = Bytes32::from_array([4; 32]);

    let mut reg = CallRegistry::new();
    let call_id = reg
        .create_call(creator, creator, addr(50), 100, 1000, addr(51), Bytes32::from_array([0; 32]), String::from("QmHash"), 0)
        .unwrap();
    reg.stake_on_call(second, call_id, second, 50, false, 1).unwrap();
    let call = reg.get_call(call_id).unwrap();

    let mut m = initialized(owner);
    m.set_oracle(owner, oracle, true).unwrap();
    m.register_call(call_id, call.stake_token, call.total_stake_yes as u128, call.total_stake_no as u128, call.end_ts).unwrap();
    assert_eq!(m.submit_outcome(call_id, true, 123, 1001, oracle, true), Ok(true));
    let winner_stake = reg.get_user_stake(call_id, creator, true) as u128;
    let loser_stake = reg.get_user_stake(call_id, second, false) as u128;
    assert_eq!(m.withdraw_payout(creator, call_id, creator, winner_stake, true), Ok(150));
    assert_eq!(m.withdraw_payout(second, call_id, second, loser_stake, false), Ok(0));
}

#[test]
fn register_over_settled_call_is_refused() {
    let owner = addr(100);
    let mut m = initialized(owner);
    let oracle = Bytes32::from_array([4; 32]);
    m.set_oracle(owner, oracle, true).unwrap();
    m.register_call(1, addr(7), 100, 50, 1000000).unwrap();
    // an open call may be registered again
    m.register_call(1, addr(7), 100, 60, 1000000).unwrap();
    assert_eq!(m.get_call(1).unwrap().short_tokens, 60);
    m.submit_outcome(1, true, 9, 9, oracle, true).unwrap();
    assert_eq!(m.register_call(1, addr(7), 1, 1_000_000, 1000000), Err(OutcomeError::CallAlreadySettled));
    let data = m.get_call(1).unwrap();
    assert!(data.settled);
    assert_eq!(data.short_tokens, 60);
    assert_eq!(data.outcome, Some(true));
    // replaying the same signed outcome stays refused
    assert_eq!(m.submit_outcome(1, true, 9, 9, oracle, true), Err(OutcomeError::CallAlreadySettled));
}

#[test]
fn engine_from_parts() {
    let owner = addr(100);
    let key = Bytes32::from_array([4; 32]);
    let open = stake_calls::outcome_manager::CallData {
        id: 3,
        token: addr(7),
        long_tokens: 10,
        short_tokens: 5,
        end_ts: 9,
        settled: false,
        outcome: None,
        final_price: None,
    };
    let settled = stake_calls::outcome_manager::CallData { settled: true, outcome: Some(false), final_price: Some(2), ..open };
    let m = OutcomeManagerContract::from_parts(Some(owner), None, vec![(key, true)], vec![open, settled], vec![(3, addr(1))]).unwrap();
    assert!(m.is_authorized_oracle(key));
    assert_eq!(m.get_call(3), Some(settled));
    assert!(m.has_withdrawn(3, addr(1)));
    // duplicate oracle keys
    assert!(OutcomeManagerContract::from_parts(Some(owner), None, vec![(key, true), (key, false)], vec![], vec![]).is_none());
    // settled without an outcome
    let broken = stake_calls::outcome_manager::CallData { outcome: None, ..settled };
    assert!(OutcomeManagerContract::from_parts(Some(owner), None, vec![], vec![broken], vec![]).is_none());
    // nothing is authorized or settled before initialization
    assert!(OutcomeManagerContract::from_parts(None, None, vec![(key, true)], vec![], vec![]).is_none());
    assert!(OutcomeManagerContract::from_parts(None, None, vec![], vec![settled], vec![]).is_none());
    assert!(OutcomeManagerContract::from_parts(None, None, vec![], vec![open], vec![]).is_some());
    // nor has anyone withdrawn
    assert!(OutcomeManagerContract::from_parts(None, None, vec![], vec![open], vec![(3, addr(1))]).is_none());
}

#[test]
fn sync_from_ledger_registers_a_snapshot() {
    let creator = addr(1);
    let other = addr(2);
    let mut reg = CallRegistry::new();
    let id = reg
        .create_call(creator, creator, addr(50), 100, 1000, addr(51), Bytes32::from_array([0; 32]), String::from("QmHash"), 0)
        .unwrap();
    reg.stake_on_call(other, id, other, 40, false, 1).unwrap();
    let owner = addr(100);
    let mut m = initialized(owner);
    assert_eq!(m.sync_from_ledger(&reg, id + 1), Err(OutcomeError::CallNotFound));
    assert_eq!(m.sync_from_ledger(&reg, id), Ok(()));
    let data = m.get_call(id).unwrap();
    assert_eq!((data.id, data.token, data.long_tokens, data.short_tokens, data.end_ts), (id, addr(50), 100, 40, 1000));
    assert!(!data.settled);
    // a later stake is not seen until the next reconciliation
    reg.stake_on_call(other, id, other, 10, true, 2).unwrap();
    assert_eq!(m.get_call(id).unwrap().long_tokens, 100);
    assert_eq!(m.sync_from_ledger(&reg, id), Ok(()));
    assert_eq!(m.get_call(id).unwrap().long_tokens, 110);
    // a settled snapshot is never replaced
    let oracle = Bytes32::from_array([4; 32]);
    m.set_oracle(owner, oracle, true).unwrap();
    m.submit_outcome(id, true, 1, 1, oracle, true).unwrap();
    assert_eq!(m.sync_from_ledger(&reg, id), Err(OutcomeError::CallAlreadySettled));
    assert!(m.get_call(id).unwrap().settled);
}

#[test]
fn withdrawals_survive_later_operations() {
    let owner = addr(100);
    let mut m = initialized(owner);
    let oracle = Bytes32::from_array([4; 32]);
    let user = addr(10);
    m.set_oracle(owner, oracle, true).unwrap();
    m.register_call(1, addr(7), 100, 50, 1000000).unwrap();
    m.submit_outcome(1, true, 1, 1, oracle, true).unwrap();
    m.withdraw_payout(user, 1, user, 100, true).unwrap();
    assert_eq!(m.initialize(addr(101), addr(201)), Err(OutcomeError::AlreadyInitialized));
    m.set_oracle(owner, oracle, false).unwrap();
    assert_eq!(m.register_call(1, addr(7), 1, 1, 1), Err(OutcomeError::CallAlreadySettled));
    m.register_call(2, addr(7), 1, 1, 1).unwrap();
    assert!(m.has_withdrawn(1, user));
}
