//! What the on-chain executor computes before it sends anything: the
//! message that authorizes a signer, its digest, and the reading of an
//! allowance.

use vstd::prelude::*;
use crate::address::{is_listed, listed, Address};
use crate::ladder::GRT;

verus! {

/// For how many seconds the executor waits for an approval or for
/// deposits to be confirmed.
pub const DEPOSIT_TIMEOUT_SECS: u64 = 30;

/// For how many seconds the executor waits for the authorization of a
/// signer to be confirmed.
pub const AUTHORIZE_TIMEOUT_SECS: u64 = 60;

/// How many confirmations the executor waits for.
pub const CONFIRMATIONS: u64 = 1;

/// For how many seconds an authorization proof is good.
pub const PROOF_VALIDITY_SECS: u64 = 60;

/// The words `authorizeSignerProof`, which mark a message as the proof
/// that a signer agrees to be authorized.
pub const PROOF_TAG: [u8; 20] = [
    0x61, 0x75, 0x74, 0x68, 0x6f, 0x72, 0x69, 0x7a, 0x65, 0x53, 0x69, 0x67, 0x6e, 0x65, 0x72,
    0x50, 0x72, 0x6f, 0x6f, 0x66,
];

/// `value` in `len` bytes, the most significant first. What does not fit is
/// cut off at the top.
pub open spec fn be_bytes(value: nat, len: nat) -> Seq<u8>
    decreases len,
{
    if len == 0 {
        Seq::empty()
    } else {
        be_bytes(value / 256, (len - 1) as nat).push((value % 256) as u8)
    }
}

/// The message that a signer signs to be authorized: the chain's number in
/// 32 bytes, the collector's address, the tag, the deadline in 32 bytes, and
/// the payer's address.
pub open spec fn proof_message(chain_id: u64, collector: Address, deadline: u64, payer: Address) -> Seq<
    u8,
> {
    be_bytes(chain_id as nat, 32) + collector.bytes@ + PROOF_TAG@ + be_bytes(deadline as nat, 32)
        + payer.bytes@
}

/// The Keccak-256 digest of `data`: 32 bytes.
pub uninterp spec fn keccak256_of(data: Seq<u8>) -> Seq<u8>;

/// Calls `alloy_primitives::keccak256`, which hashes its argument with
/// Keccak-256 and returns the 32 bytes of the digest. The digest depends on
/// the bytes alone.
#[verifier::external_body]
fn keccak256(data: &[u8]) -> (digest: [u8; 32])
    ensures
        digest@ == keccak256_of(data@),
{
    alloy_primitives::keccak256(data).0
}

fn push_be(out: &mut Vec<u8>, value: u64, len: usize)
    ensures
        final(out)@ == old(out)@ + be_bytes(value as nat, len as nat),
    decreases len,
{
    if len > 0 {
        push_be(out, value / 256, (len - 1) as usize);
        out.push((value % 256) as u8);
        assert(out@ =~= old(out)@ + be_bytes(value as nat, len as nat));
    } else {
        assert(out@ =~= old(out)@ + be_bytes(value as nat, len as nat));
    }
}

fn push_all(out: &mut Vec<u8>, bytes: &[u8])
    ensures
        final(out)@ == old(out)@ + bytes@,
{
    let mut i: usize = 0;
    while i < bytes.len()
        invariant
            i <= bytes@.len(),
            out@ == old(out)@ + bytes@.take(i as int),
        decreases bytes@.len() - i,
    {
        out.push(bytes[i]);
        proof {
            assert(bytes@.take(i + 1) =~= bytes@.take(i as int).push(bytes@[i as int]));
            assert(out@ =~= old(out)@ + bytes@.take(i + 1));
        }
        i += 1;
    }
    assert(bytes@.take(bytes@.len() as int) =~= bytes@);
}

/// The latest time, in seconds since the epoch, at which a proof made at
/// the instant `now` is accepted.
pub fn proof_deadline(now: u64) -> (deadline: u64)
    requires
        now + PROOF_VALIDITY_SECS <= u64::MAX,
    ensures
        deadline == now + PROOF_VALIDITY_SECS,
{
    now + PROOF_VALIDITY_SECS
}

/// The message that a signer signs to be authorized by `payer` at the
/// collector contract `collector` on the chain `chain_id`, until `deadline`.
pub fn authorization_message(chain_id: u64, collector: &Address, deadline: u64, payer: &Address) -> (message:
    Vec<u8>)
    ensures
        message@ == proof_message(chain_id, *collector, deadline, *payer),
        message@.len() == 124,
{
    let mut message: Vec<u8> = Vec::new();
    push_be(&mut message, chain_id, 32);
    push_all(&mut message, collector.bytes.as_slice());
    push_all(&mut message, PROOF_TAG.as_slice());
    push_be(&mut message, deadline, 32);
    push_all(&mut message, payer.bytes.as_slice());
    proof {
        lemma_be_len(chain_id as nat, 32);
        lemma_be_len(deadline as nat, 32);
        assert(message@ =~= proof_message(chain_id, *collector, deadline, *payer));
    }
    message
}

/// `be_bytes` gives as many bytes as it is asked for.
pub proof fn lemma_be_len(value: nat, len: nat)
    ensures
        be_bytes(value, len).len() == len,
    decreases len,
{
    if len > 0 {
        lemma_be_len(value / 256, (len - 1) as nat);
    }
}

/// The digest of the authorization message: what the signer signs, as a
/// message with the Ethereum prefix.
pub fn authorization_digest(chain_id: u64, collector: &Address, deadline: u64, payer: &Address) -> (digest:
    [u8; 32])
    ensures
        digest@ == keccak256_of(proof_message(chain_id, *collector, deadline, *payer)),
{
    let message = authorization_message(chain_id, collector, deadline, payer);
    keccak256(message.as_slice())
}

/// The number that four 64-bit limbs make, the least significant first.
pub open spec fn limbs_value(limbs: [u64; 4]) -> nat {
    (limbs[0] + limbs[1] * 0x1_0000_0000_0000_0000 + limbs[2]
        * 0x1_0000_0000_0000_0000_0000_0000_0000_0000 + limbs[3]
        * 0x1_0000_0000_0000_0000_0000_0000_0000_0000_0000_0000_0000_0000) as nat
}

/// The allowance that the token contract answers with, if it is an amount
/// that can be held: the contract answers with a 256-bit number, given here
/// by its four limbs, the least significant first.
pub fn allowance_from_limbs(limbs: [u64; 4]) -> (allowance: Option<u128>)
    ensures
        allowance is Some == (limbs_value(limbs) <= u128::MAX),
        allowance matches Some(a) ==> a == limbs_value(limbs),
{
    if limbs[2] != 0 || limbs[3] != 0 {
        None
    } else {
        Some((limbs[0] as u128) + (limbs[1] as u128) * 0x1_0000_0000_0000_0000)
    }
}

/// The allowance that has to be approved at startup, if any: the configured
/// allowance, which is in whole tokens, when the current one is below it.
pub fn allowance_to_approve(current: u128, grt_allowance: u64) -> (approve: Option<u128>)
    ensures
        approve == (if current < grt_allowance * GRT {
            Some((grt_allowance * GRT) as u128)
        } else {
            None
        }),
{
    let expected: u128 = (grt_allowance as u128) * GRT;
    if current < expected {
        Some(expected)
    } else {
        None
    }
}

/// Those of `signers` that are not among `authorized`, in their order.
pub open spec fn missing(signers: Seq<Address>, authorized: Seq<Address>) -> Seq<Address>
    decreases signers.len(),
{
    if signers.len() == 0 {
        Seq::empty()
    } else if listed(authorized, signers.last()) {
        missing(signers.drop_last(), authorized)
    } else {
        missing(signers.drop_last(), authorized).push(signers.last())
    }
}

/// The signers that still have to be authorized at startup: those of
/// `signers` that the collector does not know yet, in their order.
pub fn signers_to_authorize(signers: &Vec<Address>, authorized: &Vec<Address>) -> (todo: Vec<
    Address,
>)
    ensures
        todo@ == missing(signers@, authorized@),
{
    let mut todo: Vec<Address> = Vec::new();
    let mut i: usize = 0;
    proof {
        assert(signers@.take(0) =~= Seq::<Address>::empty());
    }
    while i < signers.len()
        invariant
            i <= signers@.len(),
            todo@ == missing(signers@.take(i as int), authorized@),
        decreases signers@.len() - i,
    {
        proof {
            assert(signers@.take(i + 1).drop_last() =~= signers@.take(i as int));
        }
        if !is_listed(authorized, &signers[i]) {
            todo.push(signers[i]);
        }
        i += 1;
    }
    proof {
        assert(signers@.take(signers@.len() as int) =~= signers@);
    }
    todo
}

} // verus!
