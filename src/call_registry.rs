use vstd::prelude::*;

use crate::types::{Address, Bytes32, Event};

verus! {

/// A prediction call: a YES/NO staking pool with a deadline.
#[derive(Debug)]
pub struct Call {
    pub creator: Address,
    pub stake_token: Address,
    pub total_stake_yes: i128,
    pub total_stake_no: i128,
    pub start_ts: u64,
    pub end_ts: u64,
    pub token_address: Address,
    pub pair_id: Bytes32,
    pub ipfs_cid: String,
    pub settled: bool,
    pub outcome: bool,
    pub final_price: i128,
}

/// One transfer of stake into custody: `amount` of `token` from `from`, on one position
/// of `call_id`. The host performs it; the ledger of these is the per-user stake record.
#[derive(Clone, Copy, Debug, PartialEq, Eq, Structural)]
pub struct Escrow {
    pub call_id: u64,
    pub from: Address,
    pub token: Address,
    pub amount: i128,
    pub position: bool,
}

#[derive(Clone, Copy, Debug, PartialEq, Eq, Structural)]
pub enum CallError {
    AuthenticationFailed,
    InvalidTimeRange,
    InvalidAmount,
    CallNotFound,
    CallClosed,
    CallAlreadySettled,
    StakeOverflow,
}

/// The call ledger. Call ids are the indexes of `calls`, handed out from 0 upwards.
pub struct CallRegistry {
    pub calls: Vec<Call>,
    pub escrows: Vec<Escrow>,
    pub events: Vec<Event>,
}

/// The sum of the escrows on `position` of `call_id`.
pub open spec fn pool(s: Seq<Escrow>, call_id: u64, position: bool) -> int
    decreases s.len(),
{
    if s.len() == 0 {
        0
    } else {
        pool(s.drop_last(), call_id, position) + if s.last().call_id == call_id
            && s.last().position == position {
            s.last().amount as int
        } else {
            0
        }
    }
}

/// The sum of the escrows of `user` on `position` of `call_id`.
pub open spec fn staked(s: Seq<Escrow>, call_id: u64, user: Address, position: bool) -> int
    decreases s.len(),
{
    if s.len() == 0 {
        0
    } else {
        staked(s.drop_last(), call_id, user, position) + if s.last().call_id == call_id
            && s.last().from == user && s.last().position == position {
            s.last().amount as int
        } else {
            0
        }
    }
}

/// The sum of all escrows on `call_id`, on either position.
pub open spec fn escrowed(s: Seq<Escrow>, call_id: u64) -> int
    decreases s.len(),
{
    if s.len() == 0 {
        0
    } else {
        escrowed(s.drop_last(), call_id) + if s.last().call_id == call_id {
            s.last().amount as int
        } else {
            0
        }
    }
}

/// All escrowed amounts are positive.
pub open spec fn positive_amounts(s: Seq<Escrow>) -> bool {
    forall|j: int| 0 <= j < s.len() ==> #[trigger] s[j].amount > 0
}

pub proof fn lemma_staked_le_pool(s: Seq<Escrow>, call_id: u64, user: Address, position: bool)
    requires
        positive_amounts(s),
    ensures
        0 <= staked(s, call_id, user, position) <= pool(s, call_id, position),
    decreases s.len(),
{
    if s.len() > 0 {
        lemma_staked_le_pool(s.drop_last(), call_id, user, position);
    }
}

pub proof fn lemma_staked_prefix(s: Seq<Escrow>, k: int, call_id: u64, user: Address, position: bool)
    requires
        positive_amounts(s),
        0 <= k <= s.len(),
    ensures
        staked(s.subrange(0, k), call_id, user, position) <= staked(s, call_id, user, position),
    decreases s.len(),
{
    if k < s.len() {
        assert(s.drop_last().subrange(0, k) =~= s.subrange(0, k));
        lemma_staked_prefix(s.drop_last(), k, call_id, user, position);
    } else {
        assert(s.subrange(0, k) =~= s);
    }
}

pub proof fn lemma_absent_call(s: Seq<Escrow>, call_id: u64, user: Address, position: bool)
    requires
        forall|j: int| 0 <= j < s.len() ==> (#[trigger] s[j]).call_id != call_id,
    ensures
        pool(s, call_id, position) == 0,
        staked(s, call_id, user, position) == 0,
        escrowed(s, call_id) == 0,
    decreases s.len(),
{
    if s.len() > 0 {
        lemma_absent_call(s.drop_last(), call_id, user, position);
    }
}

/// What is escrowed on a call is the sum of its two pools.
pub proof fn lemma_escrowed_pools(s: Seq<Escrow>, call_id: u64)
    ensures
        escrowed(s, call_id) == pool(s, call_id, true) + pool(s, call_id, false),
    decreases s.len(),
{
    if s.len() > 0 {
        lemma_escrowed_pools(s.drop_last(), call_id);
    }
}

/// Appending an escrow adds its amount to the sums it matches.
proof fn lemma_push_escrow(s: Seq<Escrow>, e: Escrow, call_id: u64, user: Address, position: bool)
    ensures
        pool(s.push(e), call_id, position) == pool(s, call_id, position) + if e.call_id == call_id
            && e.position == position {
            e.amount as int
        } else {
            0
        },
        staked(s.push(e), call_id, user, position) == staked(s, call_id, user, position) + if e.call_id
            == call_id && e.from == user && e.position == position {
            e.amount as int
        } else {
            0
        },
        escrowed(s.push(e), call_id) == escrowed(s, call_id) + if e.call_id == call_id {
            e.amount as int
        } else {
            0
        },
{
    assert(s.push(e).drop_last() =~= s);
}

/// The totals of each call are the sums of its escrows, every escrow belongs to a call
/// and is positive, and there are at most `u64::MAX` calls.
pub open spec fn ledger_wf(calls: Seq<Call>, escrows: Seq<Escrow>) -> bool {
    &&& calls.len() <= u64::MAX
    &&& positive_amounts(escrows)
    &&& forall|j: int| 0 <= j < escrows.len() ==> (#[trigger] escrows[j]).call_id < calls.len()
    &&& forall|i: int|
        0 <= i < calls.len() ==> {
            &&& (#[trigger] calls[i]).total_stake_yes == pool(escrows, i as u64, true)
            &&& calls[i].total_stake_no == pool(escrows, i as u64, false)
        }
}

pub proof fn lemma_pool_prefix(s: Seq<Escrow>, k: int, call_id: u64, position: bool)
    requires
        positive_amounts(s),
        0 <= k <= s.len(),
    ensures
        pool(s.subrange(0, k), call_id, position) <= pool(s, call_id, position),
    decreases s.len(),
{
    if k < s.len() {
        assert(s.drop_last().subrange(0, k) =~= s.subrange(0, k));
        lemma_pool_prefix(s.drop_last(), k, call_id, position);
    } else {
        assert(s.subrange(0, k) =~= s);
    }
}

/// `c` with `amount` more on `position`.
pub open spec fn add_stake(c: Call, amount: i128, position: bool) -> Call {
    if position {
        Call { total_stake_yes: (c.total_stake_yes + amount) as i128, ..c }
    } else {
        Call { total_stake_no: (c.total_stake_no + amount) as i128, ..c }
    }
}

impl CallRegistry {
    pub open spec fn wf(&self) -> bool {
        ledger_wf(self.calls@, self.escrows@)
    }

    /// The stake recorded for `(call_id, user, position)`, 0 where there is none.
    pub open spec fn user_stake(&self, call_id: u64, user: Address, position: bool) -> int {
        staked(self.escrows@, call_id, user, position)
    }

    pub fn new() -> (r: CallRegistry)
        ensures
            r.wf(),
            r.calls@.len() == 0,
            r.escrows@.len() == 0,
            r.events@.len() == 0,
    {
        CallRegistry { calls: Vec::new(), escrows: Vec::new(), events: Vec::new() }
    }

    /// Rebuilds a ledger from stored calls and escrows, with an empty event log; `None`
    /// where they do not form a well-formed ledger.
    pub fn from_parts(calls: Vec<Call>, escrows: Vec<Escrow>) -> (r: Option<CallRegistry>)
        ensures
            r is Some <==> ledger_wf(calls@, escrows@),
            r is Some ==> r->Some_0.calls@ == calls@ && r->Some_0.escrows@ == escrows@
                && r->Some_0.events@.len() == 0,
    {
        let n = calls.len();
        let ghost s = escrows@;
        let mut yes: Vec<i128> = Vec::new();
        let mut no: Vec<i128> = Vec::new();
        let mut i: usize = 0;
        while i < n
            invariant
                n == calls@.len(),
                i <= n,
                yes@.len() == i,
                no@.len() == i,
                forall|k: int| 0 <= k < i ==> #[trigger] yes@[k] == 0 && no@[k] == 0,
            decreases n - i,
        {
            yes.push(0);
            no.push(0);
            i = i + 1;
        }
        let mut j: usize = 0;
        proof {
            assert(s.subrange(0, 0) =~= Seq::<Escrow>::empty());
        }
        while j < escrows.len()
            invariant
                n == calls@.len(),
                s == escrows@,
                j <= s.len(),
                yes@.len() == n,
                no@.len() == n,
                forall|k: int| 0 <= k < j ==> (#[trigger] s[k]).amount > 0 && s[k].call_id < n,
                forall|k: int|
                    0 <= k < n ==> #[trigger] yes@[k] == pool(s.subrange(0, j as int), k as u64, true)
                        && no@[k] == pool(s.subrange(0, j as int), k as u64, false),
            decreases s.len() - j,
        {
            let e = escrows[j];
            let ghost j0 = j as int;
            let ghost yes0 = yes@;
            let ghost no0 = no@;
            if e.amount <= 0 || e.call_id >= n as u64 {
                proof {
                    assert(s[j as int] == e);
                }
                return None;
            }
            let idx = e.call_id as usize;
            let total = if e.position {
                yes[idx]
            } else {
                no[idx]
            };
            let ghost prefix = s.subrange(0, j + 1);
            proof {
                assert(prefix.drop_last() =~= s.subrange(0, j as int));
                assert(prefix.last() == e);
            }
            if total > i128::MAX - e.amount {
                proof {
                    assert(idx as u64 == e.call_id);
                    assert(yes@[idx as int] == pool(s.subrange(0, j0), e.call_id, true));
                    assert(no@[idx as int] == pool(s.subrange(0, j0), e.call_id, false));
                    assert(pool(prefix, e.call_id, e.position) == total + e.amount);
                    if ledger_wf(calls@, s) {
                        lemma_pool_prefix(s, j + 1, e.call_id, e.position);
                        assert(calls@[idx as int].total_stake_yes == pool(s, idx as u64, true));
                        assert(calls@[idx as int].total_stake_no == pool(s, idx as u64, false));
                    }
                }
                return None;
            }
            if e.position {
                yes.set(idx, total + e.amount);
            } else {
                no.set(idx, total + e.amount);
            }
            j = j + 1;
            proof {
                assert forall|k: int| 0 <= k < n implies #[trigger] yes@[k] == pool(
                    prefix,
                    k as u64,
                    true,
                ) && no@[k] == pool(prefix, k as u64, false) by {
                    assert(k as u64 == e.call_id <==> k == idx);
                    assert(yes0[k] == pool(s.subrange(0, j0), k as u64, true));
                    assert(no0[k] == pool(s.subrange(0, j0), k as u64, false));
                }
            }
        }
        proof {
            assert(s.subrange(0, s.len() as int) =~= s);
        }
        let mut i: usize = 0;
        while i < n
            invariant
                n == calls@.len(),
                s == escrows@,
                i <= n,
                yes@.len() == n,
                no@.len() == n,
                forall|k: int| 0 <= k < s.len() ==> (#[trigger] s[k]).amount > 0 && s[k].call_id < n,
                forall|k: int|
                    0 <= k < n ==> #[trigger] yes@[k] == pool(s, k as u64, true) && no@[k] == pool(
                        s,
                        k as u64,
                        false,
                    ),
                forall|k: int|
                    0 <= k < i ==> (#[trigger] calls@[k]).total_stake_yes == yes@[k]
                        && calls@[k].total_stake_no == no@[k],
            decreases n - i,
        {
            if calls[i].total_stake_yes != yes[i] || calls[i].total_stake_no != no[i] {
                proof {
                    assert(yes@[i as int] == pool(s, i as u64, true));
                    assert(no@[i as int] == pool(s, i as u64, false));
                }
                return None;
            }
            i = i + 1;
        }
        Some(CallRegistry { calls, escrows, events: Vec::new() })
    }

    /// Opens a call staked by `creator` on YES. `caller` is the principal that the host
    /// authenticated; `now` is the host's clock. On success the escrow of the creator's
    /// stake is appended to `escrows`, for the host to perform in the same transaction.
    pub fn create_call(
        &mut self,
        caller: Address,
        creator: Address,
        stake_token: Address,
        stake_amount: i128,
        end_ts: u64,
        token_address: Address,
        pair_id: Bytes32,
        ipfs_cid: String,
        now: u64,
    ) -> (r: Result<u64, CallError>)
        requires
            old(self).wf(),
            old(self).calls@.len() < u64::MAX,
        ensures
            final(self).wf(),
            caller != creator ==> r == Err::<u64, CallError>(CallError::AuthenticationFailed),
            caller == creator && end_ts <= now ==> r == Err::<u64, CallError>(
                CallError::InvalidTimeRange,
            ),
            caller == creator && end_ts > now && stake_amount <= 0 ==> r == Err::<u64, CallError>(
                CallError::InvalidAmount,
            ),
            r.is_err() ==> final(self).calls@ == old(self).calls@ && final(self).escrows@ == old(
                self,
            ).escrows@ && final(self).events@ == old(self).events@,
            caller == creator && end_ts > now && stake_amount > 0 ==> {
                let id = old(self).calls@.len() as u64;
                &&& r == Ok::<u64, CallError>(id)
                &&& final(self).user_stake(id, creator, true) == stake_amount
                &&& final(self).user_stake(id, creator, false) == 0
                &&& final(self).calls@ == old(self).calls@.push(
                    (Call {
                        creator,
                        stake_token,
                        total_stake_yes: stake_amount,
                        total_stake_no: 0,
                        start_ts: now,
                        end_ts,
                        token_address,
                        pair_id,
                        ipfs_cid,
                        settled: false,
                        outcome: false,
                        final_price: 0,
                    }),
                )
                &&& final(self).escrows@ == old(self).escrows@.push(
                    (Escrow {
                        call_id: id,
                        from: creator,
                        token: stake_token,
                        amount: stake_amount,
                        position: true,
                    }),
                )
                &&& final(self).events@ == old(self).events@.push(
                    (Event::CallCreated {
                        call_id: id,
                        creator,
                        stake_token,
                        stake_amount,
                        start_ts: now,
                        end_ts,
                        token_address,
                        pair_id,
                        ipfs_cid,
                    }),
                )
            },
    {
        if caller != creator {
            return Err(CallError::AuthenticationFailed);
        }
        if end_ts <= now {
            return Err(CallError::InvalidTimeRange);
        }
        if stake_amount <= 0 {
            return Err(CallError::InvalidAmount);
        }
        let call_id = self.calls.len() as u64;
        let escrow = Escrow {
            call_id,
            from: creator,
            token: stake_token,
            amount: stake_amount,
            position: true,
        };
        proof {
            let s = self.escrows@;
            let n = self.calls@.len();
            lemma_absent_call(s, call_id, creator, true);
            lemma_absent_call(s, call_id, creator, false);
            lemma_push_escrow(s, escrow, call_id, creator, true);
            lemma_push_escrow(s, escrow, call_id, creator, false);
            assert forall|i: int| 0 <= i < n implies #[trigger] pool(s.push(escrow), i as u64, true) == pool(
                s,
                i as u64,
                true,
            ) && pool(s.push(escrow), i as u64, false) == pool(s, i as u64, false) by {
                lemma_push_escrow(s, escrow, i as u64, creator, true);
                lemma_push_escrow(s, escrow, i as u64, creator, false);
            }
        }
        let event = Event::CallCreated {
            call_id,
            creator,
            stake_token,
            stake_amount,
            start_ts: now,
            end_ts,
            token_address,
            pair_id,
            ipfs_cid: ipfs_cid.clone(),
        };
        self.calls.push(
            Call {
                creator,
                stake_token,
                total_stake_yes: stake_amount,
                total_stake_no: 0,
                start_ts: now,
                end_ts,
                token_address,
                pair_id,
                ipfs_cid,
                settled: false,
                outcome: false,
                final_price: 0,
            },
        );
        self.escrows.push(escrow);
        self.events.push(event);
        Ok(call_id)
    }

    /// Adds `amount` from `staker` on `position` of an open call. On success the escrow
    /// is appended to `escrows`, for the host to perform in the same transaction.
    pub fn stake_on_call(
        &mut self,
        caller: Address,
        call_id: u64,
        staker: Address,
        amount: i128,
        position: bool,
        now: u64,
    ) -> (r: Result<(), CallError>)
        requires
            old(self).wf(),
        ensures
            final(self).wf(),
            ({
                let calls = old(self).calls@;
                let c = calls[call_id as int];
                let total = if position {
                    c.total_stake_yes
                } else {
                    c.total_stake_no
                };
                if caller != staker {
                    r == Err::<(), CallError>(CallError::AuthenticationFailed)
                } else if call_id >= calls.len() {
                    r == Err::<(), CallError>(CallError::CallNotFound)
                } else if now >= c.end_ts {
                    r == Err::<(), CallError>(CallError::CallClosed)
                } else if c.settled {
                    r == Err::<(), CallError>(CallError::CallAlreadySettled)
                } else if amount <= 0 {
                    r == Err::<(), CallError>(CallError::InvalidAmount)
                } else if total + amount > i128::MAX {
                    r == Err::<(), CallError>(CallError::StakeOverflow)
                } else {
                    &&& r == Ok::<(), CallError>(())
                    &&& final(self).user_stake(call_id, staker, position) == old(self).user_stake(
                        call_id,
                        staker,
                        position,
                    ) + amount
                    &&& final(self).calls@ == calls.update(
                        call_id as int,
                        add_stake(c, amount, position),
                    )
                    &&& final(self).escrows@ == old(self).escrows@.push(
                        (Escrow {
                            call_id,
                            from: staker,
                            token: c.stake_token,
                            amount,
                            position,
                        }),
                    )
                    &&& final(self).events@ == old(self).events@.push(
                        (Event::StakeAdded { call_id, staker, position, amount }),
                    )
                }
            }),
            r.is_err() ==> final(self).calls@ == old(self).calls@ && final(self).escrows@ == old(
                self,
            ).escrows@ && final(self).events@ == old(self).events@,
    {
        if caller != staker {
            return Err(CallError::AuthenticationFailed);
        }
        if call_id >= self.calls.len() as u64 {
            return Err(CallError::CallNotFound);
        }
        let idx = call_id as usize;
        if now >= self.calls[idx].end_ts {
            return Err(CallError::CallClosed);
        }
        if self.calls[idx].settled {
            return Err(CallError::CallAlreadySettled);
        }
        if amount <= 0 {
            return Err(CallError::InvalidAmount);
        }
        let total = if position {
            self.calls[idx].total_stake_yes
        } else {
            self.calls[idx].total_stake_no
        };
        if total > i128::MAX - amount {
            return Err(CallError::StakeOverflow);
        }
        let escrow = Escrow {
            call_id,
            from: staker,
            token: self.calls[idx].stake_token,
            amount,
            position,
        };
        proof {
            let s = self.escrows@;
            let n = self.calls@.len();
            lemma_push_escrow(s, escrow, call_id, staker, position);
            assert forall|i: int| 0 <= i < n implies #[trigger] pool(
                s.push(escrow),
                i as u64,
                true,
            ) == pool(s, i as u64, true) + if i == idx && position {
                amount as int
            } else {
                0
            } && pool(s.push(escrow), i as u64, false) == pool(s, i as u64, false) + if i == idx
                && !position {
                amount as int
            } else {
                0
            } by {
                lemma_push_escrow(s, escrow, i as u64, staker, true);
                lemma_push_escrow(s, escrow, i as u64, staker, false);
            }
        }
        if position {
            self.calls[idx].total_stake_yes = total + amount;
        } else {
            self.calls[idx].total_stake_no = total + amount;
        }
        self.escrows.push(escrow);
        self.events.push(Event::StakeAdded { call_id, staker, position, amount });
        proof {
            assert(self.calls@ =~= old(self).calls@.update(
                idx as int,
                add_stake(old(self).calls@[idx as int], amount, position),
            ));
            let s2 = self.escrows@;
            assert forall|i: int| 0 <= i < self.calls@.len() implies {
                &&& (#[trigger] self.calls@[i]).total_stake_yes == pool(s2, i as u64, true)
                &&& self.calls@[i].total_stake_no == pool(s2, i as u64, false)
            } by {
                lemma_push_escrow(old(self).escrows@, escrow, i as u64, staker, true);
                lemma_push_escrow(old(self).escrows@, escrow, i as u64, staker, false);
            }
            assert forall|j: int| 0 <= j < s2.len() implies (#[trigger] s2[j]).call_id
                < self.calls@.len() && s2[j].amount > 0 by {
                if j < old(self).escrows@.len() {
                    assert(s2[j] == old(self).escrows@[j]);
                }
            }
        }
        Ok(())
    }

    /// The call with id `call_id`, if there is one.
    pub fn get_call(&self, call_id: u64) -> (r: Option<&Call>)
        ensures
            call_id < self.calls@.len() ==> r == Some(&self.calls@[call_id as int]),
            call_id >= self.calls@.len() ==> r.is_none(),
    {
        if call_id < self.calls.len() as u64 {
            Some(&self.calls[call_id as usize])
        } else {
            None
        }
    }

    /// The stake recorded for `(call_id, user, position)`, 0 where there is none.
    pub fn get_user_stake(&self, call_id: u64, user: Address, position: bool) -> (r: i128)
        requires
            self.wf(),
        ensures
            r == self.user_stake(call_id, user, position),
    {
        let ghost s = self.escrows@;
        if call_id >= self.calls.len() as u64 {
            proof {
                lemma_absent_call(s, call_id, user, position);
            }
            return 0;
        }
        proof {
            let c = self.calls@[call_id as int];
            assert(c.total_stake_yes == pool(s, call_id, true));
            assert(c.total_stake_no == pool(s, call_id, false));
        }
        let mut total: i128 = 0;
        let mut i: usize = 0;
        while i < self.escrows.len()
            invariant
                self.wf(),
                s == self.escrows@,
                call_id < self.calls@.len(),
                i <= s.len(),
                total == staked(s.subrange(0, i as int), call_id, user, position),
            decreases s.len() - i,
        {
            let e = self.escrows[i];
            proof {
                assert(s.subrange(0, i + 1).drop_last() =~= s.subrange(0, i as int));
                lemma_staked_prefix(s, i + 1, call_id, user, position);
                lemma_staked_le_pool(s, call_id, user, position);
                assert(self.calls@[call_id as int].total_stake_yes == pool(s, call_id, true));
            }
            if e.call_id == call_id && e.from == user && e.position == position {
                total = total + e.amount;
            }
            i = i + 1;
        }
        proof {
            assert(s.subrange(0, s.len() as int) =~= s);
        }
        total
    }
}

/// Conservation: the two totals of a call are together what was escrowed on it.
pub proof fn lemma_stake_conservation(registry: &CallRegistry, call_id: u64)
    requires
        registry.wf(),
        call_id < registry.calls@.len(),
    ensures
        registry.calls@[call_id as int].total_stake_yes + registry.calls@[call_id as int].total_stake_no
            == escrowed(registry.escrows@, call_id),
{
    lemma_escrowed_pools(registry.escrows@, call_id);
    assert(registry.calls@[call_id as int].total_stake_yes == pool(registry.escrows@, call_id, true));
}

} // verus!