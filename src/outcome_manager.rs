use vstd::prelude::*;

use std::collections::HashMap;

use crate::call_registry::{lemma_staked_le_pool, pool, CallRegistry};
use crate::codec::{message_bytes, outcome_message};
use crate::types::{Address, Bytes32, Event};

verus! {

broadcast use vstd::std_specs::hash::group_hash_axioms;

/// The settlement engine's snapshot of a call: the two pools and, once settled, the
/// outcome and final price.
#[derive(Clone, Copy, Debug, PartialEq, Eq, Structural)]
pub struct CallData {
    pub id: u64,
    pub token: Address,
    pub long_tokens: u128,
    pub short_tokens: u128,
    pub end_ts: u64,
    pub settled: bool,
    pub outcome: Option<bool>,
    pub final_price: Option<u128>,
}

#[derive(Clone, Copy, Debug, PartialEq, Eq, Structural)]
pub enum OutcomeError {
    AlreadyInitialized,
    NotInitialized,
    AuthenticationFailed,
    CallNotFound,
    CallAlreadySettled,
    InvalidSignature,
    OracleNotAuthorized,
    CallNotSettled,
    AlreadyWithdrawn,
    EmptyWinningPool,
    PayoutOverflow,
}

/// The settlement engine: owner, oracle set, registered calls and withdrawal record.
pub struct OutcomeManagerContract {
    pub owner: Option<Address>,
    pub call_registry: Option<Address>,
    /// `(pubkey, authorized)`, at most one entry per key.
    pub oracles: Vec<(Bytes32, bool)>,
    pub calls: HashMap<u64, CallData>,
    /// The `(call_id, user)` pairs that have withdrawn, in order.
    pub withdrawals: Vec<(u64, Address)>,
    pub events: Vec<Event>,
}

/// `key` is in the oracle set and authorized.
pub open spec fn oracle_authorized(s: Seq<(Bytes32, bool)>, key: Bytes32) -> bool {
    exists|i: int| 0 <= i < s.len() && (#[trigger] s[i]).0 == key && s[i].1
}

pub open spec fn unique_keys(s: Seq<(Bytes32, bool)>) -> bool {
    forall|i: int, j: int|
        0 <= i < s.len() && 0 <= j < s.len() && (#[trigger] s[i]).0 == (#[trigger] s[j]).0 ==> i
            == j
}

/// `(call_id, user)` is in the withdrawal record.
pub open spec fn withdrawn(s: Seq<(u64, Address)>, call_id: u64, user: Address) -> bool {
    exists|i: int| 0 <= i < s.len() && #[trigger] s[i] == (call_id, user)
}

/// `c` settled with `outcome` at `final_price`.
pub open spec fn settled_data(c: CallData, outcome: bool, final_price: u128) -> CallData {
    CallData { settled: true, outcome: Some(outcome), final_price: Some(final_price), ..c }
}

/// Why a submission is refused, checked in this order: the call is unknown, it is
/// settled, the signature did not verify, the key is not an authorized oracle.
pub open spec fn submit_error(
    calls: Map<u64, CallData>,
    oracles: Seq<(Bytes32, bool)>,
    call_id: u64,
    oracle_pubkey: Bytes32,
    signature_valid: bool,
) -> Option<OutcomeError> {
    if !calls.contains_key(call_id) {
        Some(OutcomeError::CallNotFound)
    } else if calls[call_id].settled {
        Some(OutcomeError::CallAlreadySettled)
    } else if !signature_valid {
        Some(OutcomeError::InvalidSignature)
    } else if !oracle_authorized(oracles, oracle_pubkey) {
        Some(OutcomeError::OracleNotAuthorized)
    } else {
        None
    }
}

/// The winning pool, the losing pool, for a call settled with `outcome`.
pub open spec fn pools(outcome: bool, long_tokens: u128, short_tokens: u128) -> (int, int) {
    if outcome {
        (long_tokens as int, short_tokens as int)
    } else {
        (short_tokens as int, long_tokens as int)
    }
}

/// A winner gets the stake back plus the floor of its pro-rata share of the losing
/// pool; a loser gets nothing.
pub open spec fn payout(
    outcome: bool,
    long_tokens: u128,
    short_tokens: u128,
    user_stake: u128,
    user_side: bool,
) -> int {
    let (w, l) = pools(outcome, long_tokens, short_tokens);
    if user_side == outcome {
        user_stake + (user_stake * l) / w
    } else {
        0
    }
}

/// The payout is undefined (the winning pool is empty) or exceeds `u128::MAX`.
pub open spec fn payout_error(
    outcome: bool,
    long_tokens: u128,
    short_tokens: u128,
    user_stake: u128,
    user_side: bool,
) -> Option<OutcomeError> {
    let (w, l) = pools(outcome, long_tokens, short_tokens);
    if user_side != outcome {
        None
    } else if w == 0 {
        Some(OutcomeError::EmptyWinningPool)
    } else if payout(
        outcome,
        long_tokens,
        short_tokens,
        user_stake,
        user_side,
    ) > u128::MAX {
        Some(OutcomeError::PayoutOverflow)
    } else {
        None
    }
}

/// Why a withdrawal is refused, checked in this order.
pub open spec fn withdraw_error(
    calls: Map<u64, CallData>,
    withdrawals: Seq<(u64, Address)>,
    caller: Address,
    call_id: u64,
    user: Address,
    user_stake: u128,
    user_side: bool,
) -> Option<OutcomeError> {
    if caller != user {
        Some(OutcomeError::AuthenticationFailed)
    } else if withdrawn(withdrawals, call_id, user) {
        Some(OutcomeError::AlreadyWithdrawn)
    } else if !calls.contains_key(call_id) {
        Some(OutcomeError::CallNotFound)
    } else if !calls[call_id].settled {
        Some(OutcomeError::CallNotSettled)
    } else {
        let c = calls[call_id];
        payout_error(c.outcome.unwrap(), c.long_tokens, c.short_tokens, user_stake, user_side)
    }
}

proof fn lemma_div_at_least(x: int, w: int, k: int)
    requires
        0 <= x,
        0 < w,
        k * w <= x,
    ensures
        k <= x / w,
{
    vstd::arithmetic::div_mod::lemma_fundamental_div_mod(x, w);
    vstd::arithmetic::div_mod::lemma_mod_pos_bound(x, w);
    let d = x / w;
    let m = x % w;
    assert(k <= d) by (nonlinear_arith)
        requires
            w * d + m == x,
            0 <= m < w,
            k * w <= x,
            0 < w,
    ;
}

proof fn lemma_div_exact(x: int, w: int, k: int, r: int)
    requires
        0 <= x,
        0 < w,
        0 <= r < w,
        x == k * w + r,
    ensures
        x / w == k,
{
    vstd::arithmetic::div_mod::lemma_fundamental_div_mod(x, w);
    vstd::arithmetic::div_mod::lemma_mod_pos_bound(x, w);
    let d = x / w;
    let m = x % w;
    assert(d == k) by (nonlinear_arith)
        requires
            w * d + m == x,
            0 <= m < w,
            x == k * w + r,
            0 <= r < w,
    ;
}

/// `s * b == q * w + r` with `r < w`; `None` where the quotient exceeds `u128::MAX`.
fn mul_div_rem(s: u128, b: u128, w: u128) -> (res: Option<(u128, u128)>)
    requires
        b < w,
    ensures
        match res {
            Some((q, r)) => s * b == q * w + r && r < w,
            None => (s * b) / (w as int) > u128::MAX,
        },
    decreases s,
{
    if s == 0 {
        return Some((0, 0));
    }
    let h = s / 2;
    let t = s % 2;
    let ghost sb = s as int * b as int;
    let ghost hb = h as int * b as int;
    proof {
        assert(sb == 2 * hb + t * b) by (nonlinear_arith)
            requires
                sb == s as int * b as int,
                hb == h as int * b as int,
                s == 2 * h + t,
        ;
        assert(0 <= hb <= sb) by (nonlinear_arith)
            requires
                sb == 2 * hb + t * b,
                0 <= h,
                0 <= b,
                0 <= t,
                hb == h as int * b as int,
        ;
    }
    match mul_div_rem(h, b, w) {
        None => {
            proof {
                vstd::arithmetic::div_mod::lemma_div_is_ordered(hb, sb, w as int);
            }
            None
        },
        Some((q, r)) => {
            if q > u128::MAX / 2 {
                proof {
                    assert(2 * q * w <= sb) by (nonlinear_arith)
                        requires
                            sb == 2 * hb + t * b,
                            hb == q * w + r,
                            0 <= r,
                            0 <= t,
                            0 <= b,
                    ;
                    lemma_div_at_least(sb, w as int, 2 * q);
                }
                return None;
            }
            let mut q2: u128 = q * 2;
            let mut r2: u128;
            if r >= w - r {
                r2 = r - (w - r);
                q2 = q2 + 1;
            } else {
                r2 = r + r;
            }
            assert(2 * hb == q2 * w + r2) by (nonlinear_arith)
                requires
                    hb == q * w + r,
                    (q2 == 2 * q + 1 && r2 == 2 * r - w) || (q2 == 2 * q && r2 == 2 * r),
            ;
            let ghost q1 = q2 as int;
            let ghost r1 = r2 as int;
            if t == 1 {
                if r2 >= w - b {
                    if q2 == u128::MAX {
                        proof {
                            assert((q2 + 1) * w <= sb) by (nonlinear_arith)
                                requires
                                    sb == 2 * hb + t * b,
                                    t == 1,
                                    2 * hb == q2 * w + r2,
                                    r2 + b >= w,
                            ;
                            lemma_div_at_least(sb, w as int, q2 + 1);
                        }
                        return None;
                    }
                    r2 = r2 - (w - b);
                    q2 = q2 + 1;
                } else {
                    r2 = r2 + b;
                }
            }
            assert(sb == q2 * w + r2) by (nonlinear_arith)
                requires
                    sb == 2 * hb + t * b,
                    2 * hb == q1 * w + r1,
                    (t == 0 && q2 == q1 && r2 == r1) || (t == 1 && q2 == q1 + 1 && r2 == r1 + b - w)
                        || (t == 1 && q2 == q1 && r2 == r1 + b),
            ;
            Some((q2, r2))
        },
    }
}

/// Computes the payout of a stake on a call settled with `outcome`, exactly, whatever
/// the size of the product of stake and losing pool.
pub fn compute_payout(
    outcome: bool,
    long_tokens: u128,
    short_tokens: u128,
    user_stake: u128,
    user_side: bool,
) -> (r: Result<u128, OutcomeError>)
    ensures
        match payout_error(outcome, long_tokens, short_tokens, user_stake, user_side) {
            Some(e) => r == Err::<u128, OutcomeError>(e),
            None => r is Ok && r->Ok_0 == payout(
                outcome,
                long_tokens,
                short_tokens,
                user_stake,
                user_side,
            ),
        },
{
    if user_side != outcome {
        return Ok(0);
    }
    let (winning, losing) = if outcome {
        (long_tokens, short_tokens)
    } else {
        (short_tokens, long_tokens)
    };
    if winning == 0 {
        return Err(OutcomeError::EmptyWinningPool);
    }
    let a = losing / winning;
    let rest = losing % winning;
    let ghost s = user_stake as int;
    let ghost x = s * losing as int;
    proof {
        vstd::arithmetic::div_mod::lemma_fundamental_div_mod(losing as int, winning as int);
        assert(losing as int == winning * a + rest);
        assert(x == s * a * winning + s * rest) by (nonlinear_arith)
            requires
                x == s * losing as int,
                losing as int == winning * a + rest,
        ;
        assert(0 <= s * a * winning && 0 <= s * rest) by (nonlinear_arith)
            requires
                0 <= s,
                0 <= a,
                0 <= winning,
                0 <= rest,
        ;
    }
    let sa = match user_stake.checked_mul(a) {
        None => {
            proof {
                lemma_div_at_least(x, winning as int, s * a);
            }
            return Err(OutcomeError::PayoutOverflow);
        },
        Some(v) => v,
    };
    match mul_div_rem(user_stake, rest, winning) {
        None => {
            proof {
                vstd::arithmetic::div_mod::lemma_div_is_ordered(s * rest, x, winning as int);
            }
            Err(OutcomeError::PayoutOverflow)
        },
        Some((q, r)) => {
            proof {
                assert(x == (sa + q) * winning + r) by (nonlinear_arith)
                    requires
                        x == s * a * winning + s * rest,
                        s * rest == q * winning + r,
                        sa == s * a,
                ;
                lemma_div_exact(x, winning as int, sa + q, r as int);
            }
            match user_stake.checked_add(sa) {
                None => Err(OutcomeError::PayoutOverflow),
                Some(v) => match v.checked_add(q) {
                    None => Err(OutcomeError::PayoutOverflow),
                    Some(p) => Ok(p),
                },
            }
        },
    }
}

/// A stored snapshot is consistent: settled exactly when outcome and final price are set,
/// and never settled before initialization.
pub open spec fn entry_ok(c: CallData, initialized: bool) -> bool {
    &&& c.settled == c.outcome is Some
    &&& c.settled == c.final_price is Some
    &&& !initialized ==> !c.settled
}

/// The call map that a list of snapshots gives, a later snapshot of an id replacing an
/// earlier one.
pub open spec fn calls_map(s: Seq<CallData>) -> Map<u64, CallData>
    decreases s.len(),
{
    if s.len() == 0 {
        Map::empty()
    } else {
        calls_map(s.drop_last()).insert(s.last().id, s.last())
    }
}

/// Stored engine parts that form a well-formed engine.
pub open spec fn engine_parts_ok(
    owner: Option<Address>,
    oracles: Seq<(Bytes32, bool)>,
    calls: Seq<CallData>,
    withdrawals: Seq<(u64, Address)>,
) -> bool {
    &&& unique_keys(oracles)
    &&& owner is None ==> oracles.len() == 0
    &&& owner is None ==> withdrawals.len() == 0
    &&& forall|i: int| 0 <= i < calls.len() ==> entry_ok(#[trigger] calls[i], owner is Some)
}

/// Every withdrawal recorded in `before` is recorded in `after`.
pub open spec fn keeps_withdrawn(before: Seq<(u64, Address)>, after: Seq<(u64, Address)>) -> bool {
    forall|call_id: u64, user: Address| #[trigger]
        withdrawn(before, call_id, user) ==> withdrawn(after, call_id, user)
}

/// Every call settled in `before` is in `after`, unchanged.
pub open spec fn keeps_settled(before: Map<u64, CallData>, after: Map<u64, CallData>) -> bool {
    forall|k: u64| #[trigger]
        before.contains_key(k) && before[k].settled ==> after.contains_key(k) && after[k]
            == before[k]
}

impl OutcomeManagerContract {
    /// Oracle keys are unique, a call is settled exactly when its outcome and final
    /// price are set, and before initialization there is no oracle and no settled call.
    pub open spec fn wf(&self) -> bool {
        &&& unique_keys(self.oracles@)
        &&& self.owner is None ==> self.oracles@.len() == 0
        &&& self.owner is None ==> self.withdrawals@.len() == 0
        &&& forall|k: u64| #[trigger]
            self.calls@.contains_key(k) ==> {
                &&& self.calls@[k].settled == self.calls@[k].outcome is Some
                &&& self.calls@[k].settled == self.calls@[k].final_price is Some
                &&& self.owner is None ==> !self.calls@[k].settled
            }
    }

    /// An engine that has not been initialized.
    pub fn new() -> (r: OutcomeManagerContract)
        ensures
            r.wf(),
            r.owner.is_none(),
            r.call_registry.is_none(),
            r.oracles@.len() == 0,
            r.calls@ == Map::<u64, CallData>::empty(),
            r.withdrawals@.len() == 0,
            r.events@.len() == 0,
    {
        OutcomeManagerContract {
            owner: None,
            call_registry: None,
            oracles: Vec::new(),
            calls: HashMap::new(),
            withdrawals: Vec::new(),
            events: Vec::new(),
        }
    }

    /// Rebuilds an engine from stored parts, with an empty event log; `None` where they
    /// do not form a well-formed engine.
    pub fn from_parts(
        owner: Option<Address>,
        call_registry: Option<Address>,
        oracles: Vec<(Bytes32, bool)>,
        calls: Vec<CallData>,
        withdrawals: Vec<(u64, Address)>,
    ) -> (r: Option<OutcomeManagerContract>)
        ensures
            r is Some <==> engine_parts_ok(owner, oracles@, calls@, withdrawals@),
            r is Some ==> {
                let m = r->Some_0;
                &&& m.wf()
                &&& m.owner == owner
                &&& m.call_registry == call_registry
                &&& m.oracles@ == oracles@
                &&& m.calls@ == calls_map(calls@)
                &&& m.withdrawals@ == withdrawals@
                &&& m.events@.len() == 0
            },
    {
        let initialized = owner.is_some();
        if !initialized && (oracles.len() > 0 || withdrawals.len() > 0) {
            return None;
        }
        let ghost o = oracles@;
        let mut i: usize = 0;
        while i < oracles.len()
            invariant
                o == oracles@,
                i <= o.len(),
                forall|a: int, b: int|
                    0 <= a < i && 0 <= b < i && (#[trigger] o[a]).0 == (#[trigger] o[b]).0 ==> a
                        == b,
            decreases o.len() - i,
        {
            let mut j: usize = 0;
            while j < i
                invariant
                    o == oracles@,
                    j <= i < o.len(),
                    forall|b: int| 0 <= b < j ==> (#[trigger] o[b]).0 != o[i as int].0,
                decreases i - j,
            {
                if oracles[j].0 == oracles[i].0 {
                    proof {
                        assert(o[j as int].0 == o[i as int].0);
                    }
                    return None;
                }
                j = j + 1;
            }
            i = i + 1;
        }
        let ghost cs = calls@;
        let mut map: HashMap<u64, CallData> = HashMap::new();
        let mut k: usize = 0;
        proof {
            assert(cs.subrange(0, 0) =~= Seq::<CallData>::empty());
        }
        while k < calls.len()
            invariant
                cs == calls@,
                initialized == owner is Some,
                k <= cs.len(),
                map@ == calls_map(cs.subrange(0, k as int)),
                forall|a: int| 0 <= a < k ==> entry_ok(#[trigger] cs[a], initialized),
                forall|id: u64| #[trigger] map@.contains_key(id) ==> entry_ok(map@[id], initialized),
            decreases cs.len() - k,
        {
            let c = calls[k];
            if c.settled != c.outcome.is_some() || c.settled != c.final_price.is_some() || (
            !initialized && c.settled) {
                proof {
                    assert(cs[k as int] == c);
                }
                return None;
            }
            proof {
                assert(cs.subrange(0, k + 1).drop_last() =~= cs.subrange(0, k as int));
            }
            map.insert(c.id, c);
            k = k + 1;
        }
        proof {
            assert(cs.subrange(0, cs.len() as int) =~= cs);
        }
        Some(
            OutcomeManagerContract {
                owner,
                call_registry,
                oracles,
                calls: map,
                withdrawals,
                events: Vec::new(),
            },
        )
    }

    /// Sets the owner once, and starts from an empty oracle set, call map and
    /// withdrawal record.
    pub fn initialize(&mut self, owner: Address, call_registry: Address) -> (r: Result<
        (),
        OutcomeError,
    >)
        requires
            old(self).wf(),
        ensures
            final(self).wf(),
            keeps_settled(old(self).calls@, final(self).calls@),
            keeps_withdrawn(old(self).withdrawals@, final(self).withdrawals@),
            old(self).owner is Some ==> r == Err::<(), OutcomeError>(
                OutcomeError::AlreadyInitialized,
            ) && *final(self) == *old(self),
            old(self).owner is None ==> {
                &&& r == Ok::<(), OutcomeError>(())
                &&& final(self).owner == Some(owner)
                &&& final(self).call_registry == Some(call_registry)
                &&& final(self).oracles@.len() == 0
                &&& final(self).calls@ == Map::<u64, CallData>::empty()
                &&& final(self).withdrawals@.len() == 0
                &&& final(self).events@ == old(self).events@
            },
    {
        if self.owner.is_some() {
            return Err(OutcomeError::AlreadyInitialized);
        }
        self.owner = Some(owner);
        self.call_registry = Some(call_registry);
        self.oracles = Vec::new();
        self.calls = HashMap::new();
        self.withdrawals = Vec::new();
        Ok(())
    }

    /// The index of the entry for `key` in the oracle set.
    fn find_oracle(&self, key: Bytes32) -> (r: Option<usize>)
        ensures
            match r {
                Some(i) => i < self.oracles@.len() && self.oracles@[i as int].0 == key,
                None => forall|i: int|
                    0 <= i < self.oracles@.len() ==> (#[trigger] self.oracles@[i]).0 != key,
            },
    {
        let mut i: usize = 0;
        while i < self.oracles.len()
            invariant
                i <= self.oracles@.len(),
                forall|j: int| 0 <= j < i ==> (#[trigger] self.oracles@[j]).0 != key,
            decreases self.oracles@.len() - i,
        {
            if self.oracles[i].0 == key {
                return Some(i);
            }
            i = i + 1;
        }
        None
    }

    /// Sets whether `oracle` may submit outcomes. Only the owner may.
    pub fn set_oracle(&mut self, caller: Address, oracle: Bytes32, authorized: bool) -> (r: Result<
        (),
        OutcomeError,
    >)
        requires
            old(self).wf(),
        ensures
            final(self).wf(),
            keeps_settled(old(self).calls@, final(self).calls@),
            keeps_withdrawn(old(self).withdrawals@, final(self).withdrawals@),
            old(self).owner is None ==> r == Err::<(), OutcomeError>(OutcomeError::NotInitialized),
            old(self).owner is Some && old(self).owner != Some(caller) ==> r == Err::<
                (),
                OutcomeError,
            >(OutcomeError::AuthenticationFailed),
            r is Err ==> *final(self) == *old(self),
            old(self).owner == Some(caller) ==> {
                &&& r == Ok::<(), OutcomeError>(())
                &&& forall|k: Bytes32|
                    #![trigger oracle_authorized(final(self).oracles@, k)]
                    oracle_authorized(final(self).oracles@, k) == if k == oracle {
                        authorized
                    } else {
                        oracle_authorized(old(self).oracles@, k)
                    }
                &&& final(self).owner == old(self).owner
                &&& final(self).call_registry == old(self).call_registry
                &&& final(self).calls@ == old(self).calls@
                &&& final(self).withdrawals@ == old(self).withdrawals@
                &&& final(self).events@ == old(self).events@.push(
                    Event::OracleUpdated(oracle, authorized),
                )
            },
    {
        match self.owner {
            None => {
                return Err(OutcomeError::NotInitialized);
            },
            Some(owner) => {
                if owner != caller {
                    return Err(OutcomeError::AuthenticationFailed);
                }
            },
        }
        let ghost s = self.oracles@;
        match self.find_oracle(oracle) {
            Some(i) => {
                self.oracles.set(i, (oracle, authorized));
                proof {
                    let t = self.oracles@;
                    assert forall|k: Bytes32|
                        #![trigger oracle_authorized(t, k)]
                        oracle_authorized(t, k) == if k == oracle {
                            authorized
                        } else {
                            oracle_authorized(s, k)
                        } by {
                        if k == oracle {
                            if authorized {
                                assert(t[i as int].0 == k);
                            }
                        } else {
                            if oracle_authorized(s, k) {
                                let j = choose|j: int| 0 <= j < s.len() && (#[trigger] s[j]).0 == k && s[j].1;
                                assert(t[j] == s[j]);
                            }
                            if oracle_authorized(t, k) {
                                let j = choose|j: int| 0 <= j < t.len() && (#[trigger] t[j]).0 == k && t[j].1;
                                assert(t[j] == s[j]);
                            }
                        }
                    }
                }
            },
            None => {
                self.oracles.push((oracle, authorized));
                proof {
                    let t = self.oracles@;
                    let n = s.len() as int;
                    assert(t[n] == (oracle, authorized));
                    assert forall|k: Bytes32|
                        #![trigger oracle_authorized(t, k)]
                        oracle_authorized(t, k) == if k == oracle {
                            authorized
                        } else {
                            oracle_authorized(s, k)
                        } by {
                        if oracle_authorized(s, k) {
                            let j = choose|j: int| 0 <= j < s.len() && (#[trigger] s[j]).0 == k && s[j].1;
                            assert(t[j] == s[j]);
                        }
                        if oracle_authorized(t, k) {
                            let j = choose|j: int| 0 <= j < t.len() && (#[trigger] t[j]).0 == k && t[j].1;
                            if j < n {
                                assert(t[j] == s[j]);
                            }
                        }
                    }
                    assert forall|a: int, b: int|
                        0 <= a < t.len() && 0 <= b < t.len() && (#[trigger] t[a]).0 == (
                        #[trigger] t[b]).0 implies a == b by {
                        if a < n && b < n {
                            assert(t[a] == s[a] && t[b] == s[b]);
                        } else if a < n {
                            assert(t[a] == s[a]);
                        } else if b < n {
                            assert(t[b] == s[b]);
                        }
                    }
                }
            },
        }
        self.events.push(Event::OracleUpdated(oracle, authorized));
        Ok(())
    }

    /// Whether `oracle` is in the oracle set and authorized; false for unknown keys.
    pub fn is_authorized_oracle(&self, oracle: Bytes32) -> (r: bool)
        requires
            self.wf(),
        ensures
            r == oracle_authorized(self.oracles@, oracle),
    {
        match self.find_oracle(oracle) {
            Some(i) => {
                let ghost s = self.oracles@;
                proof {
                    if oracle_authorized(s, oracle) {
                        let j = choose|j: int| 0 <= j < s.len() && (#[trigger] s[j]).0 == oracle && s[j].1;
                        assert(s[i as int].0 == s[j].0);
                    }
                }
                self.oracles[i].1
            },
            None => false,
        }
    }

    /// Records an open snapshot of a call's pools, replacing an earlier open one. A settled
    /// call is never replaced: it is refused, and nothing changes.
    pub fn register_call(
        &mut self,
        call_id: u64,
        token: Address,
        long_tokens: u128,
        short_tokens: u128,
        end_ts: u64,
    ) -> (r: Result<(), OutcomeError>)
        requires
            old(self).wf(),
        ensures
            final(self).wf(),
            keeps_settled(old(self).calls@, final(self).calls@),
            keeps_withdrawn(old(self).withdrawals@, final(self).withdrawals@),
            old(self).calls@.contains_key(call_id) && old(self).calls@[call_id].settled ==> r
                == Err::<(), OutcomeError>(OutcomeError::CallAlreadySettled) && *final(self) == *old(
                self,
            ),
            !(old(self).calls@.contains_key(call_id) && old(self).calls@[call_id].settled) ==> {
                &&& r == Ok::<(), OutcomeError>(())
                &&& final(self).calls@ == old(self).calls@.insert(
                    call_id,
                    (CallData {
                        id: call_id,
                        token,
                        long_tokens,
                        short_tokens,
                        end_ts,
                        settled: false,
                        outcome: None,
                        final_price: None,
                    }),
                )
                &&& final(self).owner == old(self).owner
                &&& final(self).call_registry == old(self).call_registry
                &&& final(self).oracles@ == old(self).oracles@
                &&& final(self).withdrawals@ == old(self).withdrawals@
                &&& final(self).events@ == old(self).events@
            },
    {
        if let Some(c) = self.calls.get(&call_id) {
            if c.settled {
                return Err(OutcomeError::CallAlreadySettled);
            }
        }
        let data = CallData {
            id: call_id,
            token,
            long_tokens,
            short_tokens,
            end_ts,
            settled: false,
            outcome: None,
            final_price: None,
        };
        self.calls.insert(call_id, data);
        Ok(())
    }

    /// Reconciles the engine with the call ledger: registers a snapshot of ledger call
    /// `call_id`, its stake token and its YES and NO totals as the long and short pools.
    /// The snapshot is not updated by later stakes unless this is called again.
    pub fn sync_from_ledger(&mut self, ledger: &CallRegistry, call_id: u64) -> (r: Result<
        (),
        OutcomeError,
    >)
        requires
            old(self).wf(),
            ledger.wf(),
        ensures
            final(self).wf(),
            keeps_settled(old(self).calls@, final(self).calls@),
            keeps_withdrawn(old(self).withdrawals@, final(self).withdrawals@),
            call_id >= ledger.calls@.len() ==> r == Err::<(), OutcomeError>(
                OutcomeError::CallNotFound,
            ) && *final(self) == *old(self),
            call_id < ledger.calls@.len() && old(self).calls@.contains_key(call_id) && old(
                self,
            ).calls@[call_id].settled ==> r == Err::<(), OutcomeError>(
                OutcomeError::CallAlreadySettled,
            ) && *final(self) == *old(self),
            call_id < ledger.calls@.len() && !(old(self).calls@.contains_key(call_id) && old(
                self,
            ).calls@[call_id].settled) ==> {
                let c = ledger.calls@[call_id as int];
                &&& r == Ok::<(), OutcomeError>(())
                &&& final(self).calls@ == old(self).calls@.insert(
                    call_id,
                    (CallData {
                        id: call_id,
                        token: c.stake_token,
                        long_tokens: c.total_stake_yes as u128,
                        short_tokens: c.total_stake_no as u128,
                        end_ts: c.end_ts,
                        settled: false,
                        outcome: None,
                        final_price: None,
                    }),
                )
                &&& c.total_stake_yes >= 0 && c.total_stake_no >= 0
                &&& final(self).owner == old(self).owner
                &&& final(self).call_registry == old(self).call_registry
                &&& final(self).oracles@ == old(self).oracles@
                &&& final(self).withdrawals@ == old(self).withdrawals@
                &&& final(self).events@ == old(self).events@
            },
    {
        let call = match ledger.get_call(call_id) {
            None => {
                return Err(OutcomeError::CallNotFound);
            },
            Some(c) => c,
        };
        proof {
            let c = ledger.calls@[call_id as int];
            lemma_staked_le_pool(ledger.escrows@, call_id, c.creator, true);
            lemma_staked_le_pool(ledger.escrows@, call_id, c.creator, false);
            assert(c.total_stake_yes == pool(ledger.escrows@, call_id, true));
            assert(c.total_stake_no == pool(ledger.escrows@, call_id, false));
        }
        self.register_call(
            call_id,
            call.stake_token,
            call.total_stake_yes as u128,
            call.total_stake_no as u128,
            call.end_ts,
        )
    }

    /// The snapshot registered for `call_id`, if any.
    pub fn get_call(&self, call_id: u64) -> (r: Option<CallData>)
        ensures
            self.calls@.contains_key(call_id) ==> r == Some(self.calls@[call_id]),
            !self.calls@.contains_key(call_id) ==> r is None,
    {
        match self.calls.get(&call_id) {
            Some(c) => Some(*c),
            None => None,
        }
    }

    /// The message an oracle must have signed for this submission, once the call is
    /// known to exist and to be open; the host verifies the signature over it.
    pub fn submission_message(
        &self,
        call_id: u64,
        outcome: bool,
        final_price: u128,
        timestamp: u64,
    ) -> (r: Result<Vec<u8>, OutcomeError>)
        ensures
            !self.calls@.contains_key(call_id) ==> r == Err::<Vec<u8>, OutcomeError>(
                OutcomeError::CallNotFound,
            ),
            self.calls@.contains_key(call_id) && self.calls@[call_id].settled ==> r == Err::<
                Vec<u8>,
                OutcomeError,
            >(OutcomeError::CallAlreadySettled),
            self.calls@.contains_key(call_id) && !self.calls@[call_id].settled ==> r is Ok
                && r->Ok_0@ == message_bytes(call_id, outcome, final_price, timestamp),
    {
        match self.calls.get(&call_id) {
            None => Err(OutcomeError::CallNotFound),
            Some(c) => {
                if c.settled {
                    Err(OutcomeError::CallAlreadySettled)
                } else {
                    Ok(outcome_message(call_id, outcome, final_price, timestamp))
                }
            },
        }
    }

    /// Settles `call_id` with `outcome` and `final_price`. `signature_valid` is the
    /// host's verdict on the Ed25519 signature of `oracle_pubkey` over
    /// `submission_message`; the oracle's authorization is read from the live set.
    pub fn submit_outcome(
        &mut self,
        call_id: u64,
        outcome: bool,
        final_price: u128,
        timestamp: u64,
        oracle_pubkey: Bytes32,
        signature_valid: bool,
    ) -> (r: Result<bool, OutcomeError>)
        requires
            old(self).wf(),
        ensures
            final(self).wf(),
            keeps_settled(old(self).calls@, final(self).calls@),
            keeps_withdrawn(old(self).withdrawals@, final(self).withdrawals@),
            match submit_error(
                old(self).calls@,
                old(self).oracles@,
                call_id,
                oracle_pubkey,
                signature_valid,
            ) {
                Some(e) => r == Err::<bool, OutcomeError>(e) && *final(self) == *old(self),
                None => {
                    &&& r == Ok::<bool, OutcomeError>(true)
                    &&& final(self).calls@ == old(self).calls@.insert(
                        call_id,
                        settled_data(old(self).calls@[call_id], outcome, final_price),
                    )
                    &&& final(self).owner == old(self).owner
                    &&& final(self).call_registry == old(self).call_registry
                    &&& final(self).oracles@ == old(self).oracles@
                    &&& final(self).withdrawals@ == old(self).withdrawals@
                    &&& final(self).events@ == old(self).events@.push(
                        Event::OutcomeSubmitted(call_id, outcome, final_price, oracle_pubkey),
                    )
                },
            },
    {
        let data = match self.calls.get(&call_id) {
            None => {
                return Err(OutcomeError::CallNotFound);
            },
            Some(c) => *c,
        };
        if data.settled {
            return Err(OutcomeError::CallAlreadySettled);
        }
        if !signature_valid {
            return Err(OutcomeError::InvalidSignature);
        }
        if !self.is_authorized_oracle(oracle_pubkey) {
            return Err(OutcomeError::OracleNotAuthorized);
        }
        let settled = CallData {
            settled: true,
            outcome: Some(outcome),
            final_price: Some(final_price),
            ..data
        };
        self.calls.insert(call_id, settled);
        self.events.push(Event::OutcomeSubmitted(call_id, outcome, final_price, oracle_pubkey));
        Ok(true)
    }

    /// Whether `(call_id, user)` is in the withdrawal record.
    pub fn has_withdrawn(&self, call_id: u64, user: Address) -> (r: bool)
        ensures
            r == withdrawn(self.withdrawals@, call_id, user),
    {
        let mut i: usize = 0;
        while i < self.withdrawals.len()
            invariant
                i <= self.withdrawals@.len(),
                forall|j: int| 0 <= j < i ==> #[trigger] self.withdrawals@[j] != (call_id, user),
            decreases self.withdrawals@.len() - i,
        {
            let (c, u) = self.withdrawals[i];
            if c == call_id && u == user {
                return true;
            }
            i = i + 1;
        }
        false
    }

    /// Computes the payout of `user` on a settled call from the declared stake and side,
    /// and records the withdrawal, whatever the amount. The declared stake is not checked
    /// against the call ledger.
    pub fn withdraw_payout(
        &mut self,
        caller: Address,
        call_id: u64,
        user: Address,
        user_stake: u128,
        user_side: bool,
    ) -> (r: Result<u128, OutcomeError>)
        requires
            old(self).wf(),
        ensures
            final(self).wf(),
            keeps_settled(old(self).calls@, final(self).calls@),
            keeps_withdrawn(old(self).withdrawals@, final(self).withdrawals@),
            match withdraw_error(
                old(self).calls@,
                old(self).withdrawals@,
                caller,
                call_id,
                user,
                user_stake,
                user_side,
            ) {
                Some(e) => r == Err::<u128, OutcomeError>(e) && *final(self) == *old(self),
                None => {
                    let c = old(self).calls@[call_id];
                    let p = payout(
                        c.outcome.unwrap(),
                        c.long_tokens,
                        c.short_tokens,
                        user_stake,
                        user_side,
                    );
                    &&& r is Ok
                    &&& r->Ok_0 == p
                    &&& final(self).withdrawals@ == old(self).withdrawals@.push((call_id, user))
                    &&& final(self).events@ == old(self).events@.push(
                        Event::PayoutWithdrawn(call_id, user, r->Ok_0),
                    )
                    &&& final(self).owner == old(self).owner
                    &&& final(self).call_registry == old(self).call_registry
                    &&& final(self).oracles@ == old(self).oracles@
                    &&& final(self).calls@ == old(self).calls@
                },
            },
    {
        if caller != user {
            return Err(OutcomeError::AuthenticationFailed);
        }
        if self.has_withdrawn(call_id, user) {
            return Err(OutcomeError::AlreadyWithdrawn);
        }
        let data = match self.calls.get(&call_id) {
            None => {
                return Err(OutcomeError::CallNotFound);
            },
            Some(c) => *c,
        };
        if !data.settled {
            return Err(OutcomeError::CallNotSettled);
        }
        let outcome = match data.outcome {
            Some(o) => o,
            None => {
                return Err(OutcomeError::CallNotSettled);
            },
        };
        let amount = match compute_payout(
            outcome,
            data.long_tokens,
            data.short_tokens,
            user_stake,
            user_side,
        ) {
            Ok(p) => p,
            Err(e) => {
                return Err(e);
            },
        };
        self.withdrawals.push((call_id, user));
        proof {
            let w0 = old(self).withdrawals@;
            let w1 = self.withdrawals@;
            assert forall|c: u64, u: Address| #[trigger] withdrawn(w0, c, u) implies withdrawn(
                w1,
                c,
                u,
            ) by {
                let i = choose|i: int| 0 <= i < w0.len() && #[trigger] w0[i] == (c, u);
                assert(w1[i] == w0[i]);
            }
        }
        self.events.push(Event::PayoutWithdrawn(call_id, user, amount));
        Ok(amount)
    }
}

/// The sum of a sequence of amounts.
pub open spec fn sum_amounts(stakes: Seq<u128>) -> int
    decreases stakes.len(),
{
    if stakes.len() == 0 {
        0
    } else {
        sum_amounts(stakes.drop_last()) + stakes.last()
    }
}

/// What the winners of a call settled with `outcome`, with these stakes, are paid in all.
pub open spec fn total_payout(
    outcome: bool,
    long_tokens: u128,
    short_tokens: u128,
    stakes: Seq<u128>,
) -> int
    decreases stakes.len(),
{
    if stakes.len() == 0 {
        0
    } else {
        total_payout(outcome, long_tokens, short_tokens, stakes.drop_last()) + payout(
            outcome,
            long_tokens,
            short_tokens,
            stakes.last(),
            outcome,
        )
    }
}

proof fn lemma_share_bounds(outcome: bool, long_tokens: u128, short_tokens: u128, stakes: Seq<u128>)
    requires
        pools(outcome, long_tokens, short_tokens).0 > 0,
    ensures
        ({
            let (w, l) = pools(outcome, long_tokens, short_tokens);
            let sum = sum_amounts(stakes);
            let share = total_payout(outcome, long_tokens, short_tokens, stakes) - sum;
            &&& 0 <= sum
            &&& 0 <= share
            &&& w * share <= l * sum
            &&& l * sum <= w * (share + stakes.len())
        }),
    decreases stakes.len(),
{
    let (w, l) = pools(outcome, long_tokens, short_tokens);
    if stakes.len() > 0 {
        let rest = stakes.drop_last();
        lemma_share_bounds(outcome, long_tokens, short_tokens, rest);
        let x = stakes.last() as int;
        let sum0 = sum_amounts(rest);
        let share0 = total_payout(outcome, long_tokens, short_tokens, rest) - sum0;
        let q = (x * l) / w;
        assert(0 <= x * l) by (nonlinear_arith)
            requires
                0 <= x,
                0 <= l,
        ;
        vstd::arithmetic::div_mod::lemma_fundamental_div_mod(x * l, w);
        vstd::arithmetic::div_mod::lemma_mod_pos_bound(x * l, w);
        assert(0 <= q) by (nonlinear_arith)
            requires
                w * q + (x * l) % w == x * l,
                0 <= x * l,
                (x * l) % w < w,
                0 < w,
        ;
        let n = rest.len() as int;
        assert(w * (share0 + q) <= l * (sum0 + x) && l * (sum0 + x) <= w * (share0 + q + n + 1))
            by (nonlinear_arith)
            requires
                w * share0 <= l * sum0,
                l * sum0 <= w * (share0 + n),
                w * q + (x * l) % w == x * l,
                0 <= (x * l) % w < w,
        ;
    }
}

/// Payout conservation: winners whose declared stakes sum to at most the winning pool
/// `W` are paid at most `W + L` in all, `L` the losing pool; where the stakes sum to
/// exactly `W`, the floor rounding loses less than one unit per winner.
pub proof fn lemma_payout_conservation(
    outcome: bool,
    long_tokens: u128,
    short_tokens: u128,
    stakes: Seq<u128>,
)
    requires
        pools(outcome, long_tokens, short_tokens).0 > 0,
        sum_amounts(stakes) <= pools(outcome, long_tokens, short_tokens).0,
    ensures
        ({
            let (w, l) = pools(outcome, long_tokens, short_tokens);
            &&& total_payout(outcome, long_tokens, short_tokens, stakes) <= w + l
            &&& sum_amounts(stakes) == w ==> total_payout(outcome, long_tokens, short_tokens, stakes)
                >= w + l - stakes.len()
        }),
{
    let (w, l) = pools(outcome, long_tokens, short_tokens);
    lemma_share_bounds(outcome, long_tokens, short_tokens, stakes);
    let sum = sum_amounts(stakes);
    let share = total_payout(outcome, long_tokens, short_tokens, stakes) - sum;
    let n = stakes.len() as int;
    assert(share <= l) by (nonlinear_arith)
        requires
            w * share <= l * sum,
            sum <= w,
            0 < w,
            0 <= l,
    ;
    if sum == w {
        assert(l <= share + n) by (nonlinear_arith)
            requires
                l * w <= w * (share + n),
                0 < w,
        ;
    }
}

/// Payout conservation over a run of withdrawals: where each of `results` is what
/// `withdraw_payout` returned to a winner of a call settled with `outcome` on the stake of
/// the same index in `stakes` (its `ensures` gives each as `payout`), and the stakes sum to
/// at most the winning pool `W`, the results sum to at most `W + L`; where the stakes sum
/// to exactly `W`, to at least `W + L` less the number of winners.
pub proof fn lemma_withdrawals_conserve(
    outcome: bool,
    long_tokens: u128,
    short_tokens: u128,
    stakes: Seq<u128>,
    results: Seq<u128>,
)
    requires
        pools(outcome, long_tokens, short_tokens).0 > 0,
        sum_amounts(stakes) <= pools(outcome, long_tokens, short_tokens).0,
        results.len() == stakes.len(),
        forall|i: int|
            0 <= i < results.len() ==> #[trigger] results[i] == payout(
                outcome,
                long_tokens,
                short_tokens,
                stakes[i],
                outcome,
            ),
    ensures
        ({
            let (w, l) = pools(outcome, long_tokens, short_tokens);
            &&& sum_amounts(results) == total_payout(outcome, long_tokens, short_tokens, stakes)
            &&& sum_amounts(results) <= w + l
            &&& sum_amounts(stakes) == w ==> sum_amounts(results) >= w + l - stakes.len()
        }),
{
    lemma_results_total(outcome, long_tokens, short_tokens, stakes, results);
    lemma_payout_conservation(outcome, long_tokens, short_tokens, stakes);
}

proof fn lemma_results_total(
    outcome: bool,
    long_tokens: u128,
    short_tokens: u128,
    stakes: Seq<u128>,
    results: Seq<u128>,
)
    requires
        results.len() == stakes.len(),
        forall|i: int|
            0 <= i < results.len() ==> #[trigger] results[i] == payout(
                outcome,
                long_tokens,
                short_tokens,
                stakes[i],
                outcome,
            ),
    ensures
        sum_amounts(results) == total_payout(outcome, long_tokens, short_tokens, stakes),
    decreases stakes.len(),
{
    if stakes.len() > 0 {
        let r0 = results.drop_last();
        let s0 = stakes.drop_last();
        assert forall|i: int| 0 <= i < r0.len() implies #[trigger] r0[i] == payout(
            outcome,
            long_tokens,
            short_tokens,
            s0[i],
            outcome,
        ) by {
            assert(r0[i] == results[i] && s0[i] == stakes[i]);
        }
        lemma_results_total(outcome, long_tokens, short_tokens, s0, r0);
        assert(results[results.len() - 1] == payout(
            outcome,
            long_tokens,
            short_tokens,
            stakes[stakes.len() - 1],
            outcome,
        ));
    }
}

/// A submission that succeeds leaves the call settled with the submitted outcome and
/// price, and a second submission right after it is refused as already settled.
pub proof fn lemma_settles_once(
    calls: Map<u64, CallData>,
    oracles: Seq<(Bytes32, bool)>,
    call_id: u64,
    outcome: bool,
    final_price: u128,
    oracle_pubkey: Bytes32,
    oracles2: Seq<(Bytes32, bool)>,
    oracle_pubkey2: Bytes32,
    signature_valid2: bool,
)
    requires
        submit_error(calls, oracles, call_id, oracle_pubkey, true) is None,
    ensures
        ({
            let after = calls.insert(call_id, settled_data(calls[call_id], outcome, final_price));
            &&& after[call_id].settled
            &&& after[call_id].outcome == Some(outcome)
            &&& after[call_id].final_price == Some(final_price)
            &&& submit_error(after, oracles2, call_id, oracle_pubkey2, signature_valid2) == Some(
                OutcomeError::CallAlreadySettled,
            )
        }),
{
}

/// Keeping settled calls carries over a run of operations.
pub proof fn lemma_keeps_settled_trans(
    a: Map<u64, CallData>,
    b: Map<u64, CallData>,
    c: Map<u64, CallData>,
)
    requires
        keeps_settled(a, b),
        keeps_settled(b, c),
    ensures
        keeps_settled(a, c),
{
    assert forall|k: u64| #[trigger] a.contains_key(k) && a[k].settled implies c.contains_key(k)
        && c[k] == a[k] by {
        assert(b.contains_key(k) && b[k] == a[k]);
    }
}

/// A call is settled at most once. Every operation of the engine keeps settled calls
/// unchanged (`keeps_settled` is in the `ensures` of each, and carries over a run of them),
/// so once a call is settled, any later submission for it, after any operations, is
/// refused as already settled, whatever its signature and oracle.
pub proof fn lemma_settled_stays_settled(
    before: Map<u64, CallData>,
    after: Map<u64, CallData>,
    oracles: Seq<(Bytes32, bool)>,
    call_id: u64,
    oracle_pubkey: Bytes32,
    signature_valid: bool,
)
    requires
        keeps_settled(before, after),
        before.contains_key(call_id),
        before[call_id].settled,
    ensures
        after.contains_key(call_id),
        after[call_id] == before[call_id],
        submit_error(after, oracles, call_id, oracle_pubkey, signature_valid) == Some(
            OutcomeError::CallAlreadySettled,
        ),
{
}

/// Keeping recorded withdrawals carries over a run of operations.
pub proof fn lemma_keeps_withdrawn_trans(
    a: Seq<(u64, Address)>,
    b: Seq<(u64, Address)>,
    c: Seq<(u64, Address)>,
)
    requires
        keeps_withdrawn(a, b),
        keeps_withdrawn(b, c),
    ensures
        keeps_withdrawn(a, c),
{
}

/// The withdrawal record only grows. Every operation of the engine keeps recorded
/// withdrawals (`keeps_withdrawn` is in the `ensures` of each, and carries over a run of
/// them), so once `(call_id, user)` has withdrawn, after any operations, `has_withdrawn`
/// holds and every later withdrawal for it is refused, whatever stake and side it declares.
pub proof fn lemma_withdrawn_stays_withdrawn(
    calls: Map<u64, CallData>,
    before: Seq<(u64, Address)>,
    after: Seq<(u64, Address)>,
    call_id: u64,
    user: Address,
    user_stake: u128,
    user_side: bool,
)
    requires
        keeps_withdrawn(before, after),
        withdrawn(before, call_id, user),
    ensures
        withdrawn(after, call_id, user),
        withdraw_error(calls, after, user, call_id, user, user_stake, user_side) == Some(
            OutcomeError::AlreadyWithdrawn,
        ),
{
}

/// A signature that does not verify is refused as such on an open call, whatever the
/// oracle set holds.
pub proof fn lemma_bad_signature_refused(
    calls: Map<u64, CallData>,
    oracles: Seq<(Bytes32, bool)>,
    call_id: u64,
    oracle_pubkey: Bytes32,
)
    requires
        calls.contains_key(call_id),
        !calls[call_id].settled,
    ensures
        submit_error(calls, oracles, call_id, oracle_pubkey, false) == Some(
            OutcomeError::InvalidSignature,
        ),
{
}

/// A valid signature from a key that is absent from the oracle set, or revoked in it, is
/// refused as not authorized on an open call.
pub proof fn lemma_unauthorized_refused(
    calls: Map<u64, CallData>,
    oracles: Seq<(Bytes32, bool)>,
    call_id: u64,
    oracle_pubkey: Bytes32,
)
    requires
        calls.contains_key(call_id),
        !calls[call_id].settled,
        !oracle_authorized(oracles, oracle_pubkey),
    ensures
        submit_error(calls, oracles, call_id, oracle_pubkey, true) == Some(
            OutcomeError::OracleNotAuthorized,
        ),
{
}

/// A user withdraws at most once per call: after a withdrawal succeeds, every later one
/// for the same call and user is refused, whatever stake and side it declares.
pub proof fn lemma_withdraws_once(
    calls: Map<u64, CallData>,
    withdrawals: Seq<(u64, Address)>,
    call_id: u64,
    user: Address,
    user_stake: u128,
    user_side: bool,
    user_stake2: u128,
    user_side2: bool,
)
    requires
        withdraw_error(calls, withdrawals, user, call_id, user, user_stake, user_side) is None,
    ensures
        withdraw_error(
            calls,
            withdrawals.push((call_id, user)),
            user,
            call_id,
            user,
            user_stake2,
            user_side2,
        ) == Some(OutcomeError::AlreadyWithdrawn),
{
    let t = withdrawals.push((call_id, user));
    assert(t[withdrawals.len() as int] == (call_id, user));
}

} // verus!
