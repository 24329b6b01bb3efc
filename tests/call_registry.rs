use stake_calls::call_registry::{CallError, CallRegistry, Escrow};
use stake_calls::types::{Address, Bytes32, Event};

fn addr(n: u8) -> Address {
    Bytes32::from_array([n; 32])
}

const NOW: u64 = 0;

fn new_call(reg: &mut CallRegistry, creator: Address, stake_token: Address, end_ts: u64) -> u64 {
    reg.create_call(
        creator,
        creator,
        stake_token,
        100,
        end_ts,
        addr(9),
        Bytes32::from_array([0; 32]),
        String::from("QmHash"),
        NOW,
    )
    .unwrap()
}

#[test]
fn test_create_call() {
    let mut reg = CallRegistry::new();
    let creator = addr(1);
    let stake_token = addr(2);
    let end_ts = NOW + 1000;
    let call_id = new_call(&mut reg, creator, stake_token, end_ts);
    assert_eq!(call_id, 0);

    let call = reg.get_call(call_id).unwrap();
    assert_eq!(call.creator, creator);
    assert_eq!(call.total_stake_yes, 100);
    assert_eq!(call.total_stake_no, 0);
    assert_eq!(call.ipfs_cid, "QmHash");

    assert_eq!(reg.get_user_stake(call_id, creator, true), 100);

    // the creator's stake went into custody
    assert_eq!(
        reg.escrows,
        vec![Escrow { call_id: 0, from: creator, token: stake_token, amount: 100, position: true }]
    );

    match reg.events.last().unwrap() {
        Event::CallCreated { call_id, creator: c, stake_amount, end_ts: e, .. } => {
            assert_eq!(*call_id, 0);
            assert_eq!(*c, creator);
            assert_eq!(*stake_amount, 100);
            assert_eq!(*e, end_ts);
        }
        other => panic!("unexpected event {:?}", other),
    }
}

#[test]
fn test_stake_on_call() {
    let mut reg = CallRegistry::new();
    let creator = addr(1);
    let staker = addr(3);
    let stake_token = addr(2);
    let call_id = new_call(&mut reg, creator, stake_token, NOW + 1000);

    assert_eq!(reg.stake_on_call(staker, call_id, staker, 50, false, NOW), Ok(()));

    let call = reg.get_call(call_id).unwrap();
    assert_eq!(call.total_stake_yes, 100);
    assert_eq!(call.total_stake_no, 50);
    assert_eq!(reg.get_user_stake(call_id, staker, false), 50);

    let from_staker: i128 = reg.escrows.iter().filter(|e| e.from == staker).map(|e| e.amount).sum();
    let in_custody: i128 = reg.escrows.iter().map(|e| e.amount).sum();
    assert_eq!(from_staker, 50);
    assert_eq!(in_custody, 150);
}

#[test]
fn test_create_call_past_end_time() {
    let mut reg = CallRegistry::new();
    let creator = addr(1);
    let r = reg.create_call(
        creator,
        creator,
        addr(2),
        100,
        NOW,
        addr(9),
        Bytes32::from_array([0; 32]),
        String::from("QmHash"),
        NOW,
    );
    assert_eq!(r, Err(CallError::InvalidTimeRange));
    assert!(reg.calls.is_empty());
    assert!(reg.escrows.is_empty());
    assert!(reg.events.is_empty());
}

#[test]
fn test_stake_ended_call() {
    let mut reg = CallRegistry::new();
    let staker = addr(3);
    let end_ts = NOW + 100;
    let call_id = new_call(&mut reg, addr(1), addr(2), end_ts);
    let r = reg.stake_on_call(staker, call_id, staker, 50, false, end_ts + 1);
    assert_eq!(r, Err(CallError::CallClosed));
    assert_eq!(reg.escrows.len(), 1);
    assert_eq!(reg.get_call(call_id).unwrap().total_stake_no, 0);
}

#[test]
fn stake_at_end_time_is_closed() {
    let mut reg = CallRegistry::new();
    let staker = addr(3);
    let call_id = new_call(&mut reg, addr(1), addr(2), 100);
    assert_eq!(reg.stake_on_call(staker, call_id, staker, 50, true, 100), Err(CallError::CallClosed));
    assert_eq!(reg.stake_on_call(staker, call_id, staker, 50, true, 99), Ok(()));
}

#[test]
fn create_call_errors() {
    let mut reg = CallRegistry::new();
    let creator = addr(1);
    let mk = |reg: &mut CallRegistry, caller: Address, amount: i128, end_ts: u64| {
        reg.create_call(
            caller,
            creator,
            addr(2),
            amount,
            end_ts,
            addr(9),
            Bytes32::from_array([0; 32]),
            String::from("QmHash"),
            10,
        )
    };
    assert_eq!(mk(&mut reg, addr(7), 100, 20), Err(CallError::AuthenticationFailed));
    assert_eq!(mk(&mut reg, creator, 100, 9), Err(CallError::InvalidTimeRange));
    assert_eq!(mk(&mut reg, creator, 0, 20), Err(CallError::InvalidAmount));
    assert_eq!(mk(&mut reg, creator, -5, 20), Err(CallError::InvalidAmount));
    assert!(reg.escrows.is_empty());
    assert_eq!(mk(&mut reg, creator, 100, 20), Ok(0));
    assert_eq!(mk(&mut reg, creator, 7, 20), Ok(1));
    assert_eq!(reg.get_call(1).unwrap().start_ts, 10);
}

#[test]
fn stake_errors() {
    let mut reg = CallRegistry::new();
    let staker = addr(3);
    let call_id = new_call(&mut reg, addr(1), addr(2), 100);
    assert_eq!(reg.stake_on_call(addr(4), call_id, staker, 5, true, 0), Err(CallError::AuthenticationFailed));
    assert_eq!(reg.stake_on_call(staker, 7, staker, 5, true, 0), Err(CallError::CallNotFound));
    assert_eq!(reg.stake_on_call(staker, call_id, staker, 0, true, 0), Err(CallError::InvalidAmount));
    assert_eq!(reg.stake_on_call(staker, call_id, staker, i128::MAX, true, 0), Err(CallError::StakeOverflow));
    assert_eq!(reg.stake_on_call(staker, call_id, staker, i128::MAX - 100, true, 0), Ok(()));
    assert_eq!(reg.escrows.len(), 2);
}

#[test]
fn staking_on_a_settled_call_is_refused() {
    let mut reg = CallRegistry::new();
    let staker = addr(3);
    let call_id = new_call(&mut reg, addr(1), addr(2), 100);
    reg.calls[0].settled = true;
    assert_eq!(reg.stake_on_call(staker, call_id, staker, 5, true, 0), Err(CallError::CallAlreadySettled));
    assert_eq!(reg.escrows.len(), 1);
}

#[test]
fn totals_equal_escrowed_amounts() {
    let mut reg = CallRegistry::new();
    let a = addr(3);
    let b = addr(4);
    let first = new_call(&mut reg, addr(1), addr(2), 100);
    let second = new_call(&mut reg, addr(1), addr(2), 100);
    reg.stake_on_call(a, first, a, 30, true, 0).unwrap();
    reg.stake_on_call(b, first, b, 20, false, 0).unwrap();
    reg.stake_on_call(a, first, a, 5, false, 0).unwrap();
    reg.stake_on_call(a, first, a, 7, true, 0).unwrap();
    reg.stake_on_call(b, second, b, 11, false, 0).unwrap();
    for id in [first, second] {
        let call = reg.get_call(id).unwrap();
        let escrowed: i128 = reg.escrows.iter().filter(|e| e.call_id == id).map(|e| e.amount).sum();
        assert_eq!(call.total_stake_yes + call.total_stake_no, escrowed);
    }
    assert_eq!(reg.get_user_stake(first, a, true), 37);
    assert_eq!(reg.get_user_stake(first, a, false), 5);
    assert_eq!(reg.get_user_stake(first, b, false), 20);
    assert_eq!(reg.get_user_stake(second, b, false), 11);
    assert_eq!(reg.get_user_stake(second, a, true), 0);
    assert_eq!(reg.get_user_stake(9, a, true), 0);
    assert!(matches!(reg.events.last().unwrap(), Event::StakeAdded { amount: 11, position: false, .. }));
}

#[test]
fn get_missing_call() {
    let reg = CallRegistry::new();
    assert!(reg.get_call(0).is_none());
}

#[test]
fn registry_from_parts() {
    let mut reg = CallRegistry::new();
    let a = addr(3);
    let id = new_call(&mut reg, addr(1), addr(2), 100);
    reg.stake_on_call(a, id, a, 30, false, 0).unwrap();
    let calls: Vec<_> = reg.calls.drain(..).collect();
    let escrows = reg.escrows.clone();
    let rebuilt = CallRegistry::from_parts(calls, escrows.clone()).unwrap();
    assert_eq!(rebuilt.get_user_stake(id, a, false), 30);
    assert_eq!(rebuilt.get_call(id).unwrap().total_stake_no, 30);
    assert!(rebuilt.events.is_empty());

    let remake = |yes: i128, no: i128, escrows: Vec<Escrow>| {
        let mut r = CallRegistry::new();
        new_call(&mut r, addr(1), addr(2), 100);
        let mut calls: Vec<_> = r.calls.drain(..).collect();
        calls[0].total_stake_yes = yes;
        calls[0].total_stake_no = no;
        CallRegistry::from_parts(calls, escrows)
    };
    assert!(remake(100, 30, escrows.clone()).is_some());
    // totals that are not the escrow sums
    assert!(remake(100, 31, escrows.clone()).is_none());
    // an escrow for a call that does not exist
    let mut stray = escrows.clone();
    stray.push(Escrow { call_id: 5, from: a, token: addr(2), amount: 1, position: true });
    assert!(remake(101, 30, stray).is_none());
    // a non-positive escrow
    let mut zero = escrows.clone();
    zero.push(Escrow { call_id: 0, from: a, token: addr(2), amount: 0, position: true });
    assert!(remake(100, 30, zero).is_none());
    // escrows whose sum overflows
    let big = vec![
        Escrow { call_id: 0, from: a, token: addr(2), amount: i128::MAX, position: true },
        Escrow { call_id: 0, from: a, token: addr(2), amount: i128::MAX, position: true },
    ];
    assert!(remake(i128::MAX, 0, big).is_none());
}
