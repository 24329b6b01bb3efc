use vstd::prelude::*;

pub mod call_registry;
pub mod codec;
pub mod outcome_manager;
pub mod types;

verus! {

// A binary prediction market in two parts. `call_registry` opens calls and records
// stakes as escrows into custody; `outcome_manager` authorizes oracles, settles a call
// once on an oracle-signed outcome whose message `codec` builds, and computes payouts.
// Host services (authentication, clock, transfers, signature checks, storage) stay
// with the caller: their results come in as arguments, their requests go out as data.

} // verus!
