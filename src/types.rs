use vstd::prelude::*;

use crate::codec::{be_value, pow256};

verus! {

/// A 32-byte value (an account or contract id, a public key, a market id), held as its
/// high and low 16 bytes read big-endian.
#[derive(Clone, Copy, Debug, PartialEq, Eq, Structural)]
pub struct Bytes32 {
    pub hi: u128,
    pub lo: u128,
}

proof fn lemma_pow256_mono(a: nat, b: nat)
    requires
        a <= b,
    ensures
        pow256(a) <= pow256(b),
    decreases b,
{
    if a < b {
        lemma_pow256_mono(a, (b - 1) as nat);
    }
}

/// The value of bytes `lo..hi` of `b`, read big-endian.
fn read_be(b: &[u8; 32], lo: usize, hi: usize) -> (r: u128)
    requires
        lo <= hi <= 32,
        hi - lo <= 16,
    ensures
        r == be_value(b@.subrange(lo as int, hi as int)),
{
    let mut acc: u128 = 0;
    let mut i: usize = lo;
    proof {
        reveal_with_fuel(pow256, 17);
    }
    while i < hi
        invariant
            lo <= i <= hi <= 32,
            hi - lo <= 16,
            acc == be_value(b@.subrange(lo as int, i as int)),
            acc < pow256((i - lo) as nat),
            pow256(16) == 0x1_0000_0000_0000_0000_0000_0000_0000_0000,
        decreases hi - i,
    {
        let ghost p = pow256((i - lo) as nat);
        proof {
            lemma_pow256_mono((i + 1 - lo) as nat, 16);
            assert(b@.subrange(lo as int, i + 1).drop_last() =~= b@.subrange(lo as int, i as int));
            assert(pow256((i + 1 - lo) as nat) == 256 * p);
            assert(acc * 256 + b@[i as int] < 256 * p) by (nonlinear_arith)
                requires
                    acc < p,
                    b@[i as int] < 256,
            ;
        }
        acc = acc * 256 + b[i] as u128;
        i = i + 1;
    }
    acc
}

impl Bytes32 {
    /// The value held by 32 bytes: the first 16 read big-endian into `hi`, the rest into `lo`.
    pub fn from_array(b: [u8; 32]) -> (r: Bytes32)
        ensures
            r.hi == be_value(b@.subrange(0, 16)),
            r.lo == be_value(b@.subrange(16, 32)),
    {
        Bytes32 { hi: read_be(&b, 0, 16), lo: read_be(&b, 16, 32) }
    }
}

/// A principal: the 32-byte id of an account or of a contract.
pub type Address = Bytes32;

/// What an operation publishes when it commits.
#[derive(Debug)]
pub enum Event {
    CallCreated {
        call_id: u64,
        creator: Address,
        stake_token: Address,
        stake_amount: i128,
        start_ts: u64,
        end_ts: u64,
        token_address: Address,
        pair_id: Bytes32,
        ipfs_cid: String,
    },
    StakeAdded { call_id: u64, staker: Address, position: bool, amount: i128 },
    OracleUpdated(Bytes32, bool),
    OutcomeSubmitted(u64, bool, u128, Bytes32),
    PayoutWithdrawn(u64, Address, u128),
}

} // verus!
