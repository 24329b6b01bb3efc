use vstd::prelude::*;

verus! {

/// `256^n`.
pub open spec fn pow256(n: nat) -> nat
    decreases n,
{
    if n == 0 {
        1
    } else {
        256 * pow256((n - 1) as nat)
    }
}

/// The `n` low-order bytes of `v`, most significant first.
pub open spec fn be_bytes(v: nat, n: nat) -> Seq<u8>
    decreases n,
{
    if n == 0 {
        Seq::empty()
    } else {
        be_bytes(v / 256, (n - 1) as nat).push((v % 256) as u8)
    }
}

/// The number whose big-endian bytes are `s`.
pub open spec fn be_value(s: Seq<u8>) -> nat
    decreases s.len(),
{
    if s.len() == 0 {
        0
    } else {
        be_value(s.drop_last()) * 256 + s.last() as nat
    }
}

pub proof fn lemma_be_bytes_len(v: nat, n: nat)
    ensures
        be_bytes(v, n).len() == n,
    decreases n,
{
    if n > 0 {
        lemma_be_bytes_len(v / 256, (n - 1) as nat);
    }
}

/// Reading back the big-endian bytes of a value that fits in them gives the value.
pub proof fn lemma_be_round_trip(v: nat, n: nat)
    requires
        v < pow256(n),
    ensures
        be_value(be_bytes(v, n)) == v,
    decreases n,
{
    if n > 0 {
        let p = pow256((n - 1) as nat);
        assert(v / 256 < p) by (nonlinear_arith)
            requires
                v < 256 * p,
        ;
        lemma_be_round_trip(v / 256, (n - 1) as nat);
        let s = be_bytes(v, n);
        assert(s.drop_last() =~= be_bytes(v / 256, (n - 1) as nat));
        assert((v / 256) * 256 + v % 256 == v) by (nonlinear_arith);
    }
}

/// Appends the `n` low-order bytes of `v` to `out`, most significant first.
pub fn push_be(out: &mut Vec<u8>, v: u128, n: usize)
    ensures
        final(out)@ == old(out)@ + be_bytes(v as nat, n as nat),
    decreases n,
{
    if n > 0 {
        push_be(out, v / 256, n - 1);
        out.push((v % 256) as u8);
        proof {
            let a = old(out)@;
            let b = be_bytes((v / 256) as nat, (n - 1) as nat);
            assert((a + b).push((v % 256) as u8) =~= a + b.push((v % 256) as u8));
        }
    } else {
        assert(old(out)@ + Seq::<u8>::empty() =~= old(out)@);
    }
}

/// The signed settlement message: `call_id` (8 bytes), `outcome` (one byte, 0 or 1),
/// `final_price` (16 bytes) and `timestamp` (8 bytes), each big-endian.
pub open spec fn message_bytes(call_id: u64, outcome: bool, final_price: u128, timestamp: u64) -> Seq<
    u8,
> {
    be_bytes(call_id as nat, 8) + seq![if outcome { 1u8 } else { 0u8 }] + be_bytes(
        final_price as nat,
        16,
    ) + be_bytes(timestamp as nat, 8)
}

proof fn lemma_pow256_bounds()
    ensures
        pow256(8) == 0x1_0000_0000_0000_0000,
        pow256(16) == 0x1_0000_0000_0000_0000_0000_0000_0000_0000,
{
    reveal_with_fuel(pow256, 17);
}

/// The settlement message is 33 bytes long.
pub proof fn lemma_message_len(call_id: u64, outcome: bool, final_price: u128, timestamp: u64)
    ensures
        message_bytes(call_id, outcome, final_price, timestamp).len() == 33,
{
    lemma_be_bytes_len(call_id as nat, 8);
    lemma_be_bytes_len(final_price as nat, 16);
    lemma_be_bytes_len(timestamp as nat, 8);
}

/// Two submissions that differ in any field are signed over different messages: a
/// signature over one message is never a signature over the message of other values.
pub proof fn lemma_message_injective(
    call_id: u64,
    outcome: bool,
    final_price: u128,
    timestamp: u64,
    call_id2: u64,
    outcome2: bool,
    final_price2: u128,
    timestamp2: u64,
)
    requires
        message_bytes(call_id, outcome, final_price, timestamp) == message_bytes(
            call_id2,
            outcome2,
            final_price2,
            timestamp2,
        ),
    ensures
        call_id == call_id2,
        outcome == outcome2,
        final_price == final_price2,
        timestamp == timestamp2,
{
    lemma_pow256_bounds();
    lemma_be_bytes_len(call_id as nat, 8);
    lemma_be_bytes_len(final_price as nat, 16);
    lemma_be_bytes_len(timestamp as nat, 8);
    lemma_be_bytes_len(call_id2 as nat, 8);
    lemma_be_bytes_len(final_price2 as nat, 16);
    lemma_be_bytes_len(timestamp2 as nat, 8);
    let m = message_bytes(call_id, outcome, final_price, timestamp);
    let m2 = message_bytes(call_id2, outcome2, final_price2, timestamp2);
    assert(m.subrange(0, 8) =~= be_bytes(call_id as nat, 8));
    assert(m2.subrange(0, 8) =~= be_bytes(call_id2 as nat, 8));
    assert(m.subrange(9, 25) =~= be_bytes(final_price as nat, 16));
    assert(m2.subrange(9, 25) =~= be_bytes(final_price2 as nat, 16));
    assert(m.subrange(25, 33) =~= be_bytes(timestamp as nat, 8));
    assert(m2.subrange(25, 33) =~= be_bytes(timestamp2 as nat, 8));
    assert(m[8] == m2[8]);
    lemma_be_round_trip(call_id as nat, 8);
    lemma_be_round_trip(call_id2 as nat, 8);
    lemma_be_round_trip(final_price as nat, 16);
    lemma_be_round_trip(final_price2 as nat, 16);
    lemma_be_round_trip(timestamp as nat, 8);
    lemma_be_round_trip(timestamp2 as nat, 8);
}

/// Builds the message that an oracle signs to settle `call_id`.
pub fn outcome_message(call_id: u64, outcome: bool, final_price: u128, timestamp: u64) -> (r: Vec<
    u8,
>)
    ensures
        r@ == message_bytes(call_id, outcome, final_price, timestamp),
        r@.len() == 33,
{
    let mut out: Vec<u8> = Vec::new();
    push_be(&mut out, call_id as u128, 8);
    out.push(if outcome { 1u8 } else { 0u8 });
    push_be(&mut out, final_price, 16);
    push_be(&mut out, timestamp as u128, 8);
    proof {
        lemma_message_len(call_id, outcome, final_price, timestamp);
        assert(out@ =~= message_bytes(call_id, outcome, final_price, timestamp));
    }
    out
}

} // verus!
