//! Unbonding claims: time-delayed promises to release staked value.
//!
//! Unbonding appends a claim to the holder's queue; withdrawal drains the
//! matured claims greedily, in queue order, under an optional cap.

use crate::msg::ClaimsResponse;
use crate::state::{claims_of, claims_unique, list_claims, replace_claims, Ledger};
use vstd::prelude::*;

verus! {

/// The execution context a claim's maturity is evaluated against.
#[derive(Clone, Copy, Debug, PartialEq, Eq, Structural)]
pub struct BlockInfo {
    pub height: u64,
    pub time: u64,
}

/// A release threshold: either an absolute block height or an absolute
/// timestamp.
#[derive(Clone, Copy, Debug, PartialEq, Eq, Structural)]
pub enum Expiration {
    AtHeight(u64),
    AtTime(u64),
}

impl Expiration {
    /// Whether the threshold has been reached in the given block.
    pub open spec fn spec_is_expired(self, block: BlockInfo) -> bool {
        match self {
            Expiration::AtHeight(h) => block.height >= h,
            Expiration::AtTime(t) => block.time >= t,
        }
    }

    pub fn is_expired(&self, block: &BlockInfo) -> (r: bool)
        ensures
            r == self.spec_is_expired(*block),
    {
        match self {
            Expiration::AtHeight(h) => block.height >= *h,
            Expiration::AtTime(t) => block.time >= *t,
        }
    }
}

/// A pending release of `amount` once `release_at` has passed.
#[derive(Clone, Copy, Debug, PartialEq, Eq, Structural)]
pub struct Claim {
    pub amount: u128,
    pub release_at: Expiration,
}

impl Claim {
    pub fn new(amount: u128, released: Expiration) -> (c: Claim)
        ensures
            c.amount == amount,
            c.release_at == released,
    {
        Claim { amount, release_at: released }
    }
}

/// Appends a claim to the holder's queue, so that the address can withdraw
/// `amount` once `release_at` has passed.
pub fn create_claim(st: &mut Ledger, addr: &Vec<u8>, amount: u128, release_at: Expiration)
    requires
        claims_unique(old(st).claims@),
    ensures
        final(st).config == old(st).config,
        final(st).state == old(st).state,
        final(st).holders == old(st).holders,
        claims_unique(final(st).claims@),
        claims_of(final(st).claims@, addr@) == claims_of(old(st).claims@, addr@).push(
            Claim { amount, release_at },
        ),
        forall|b: Seq<u8>|
            b != addr@ ==> #[trigger] claims_of(final(st).claims@, b) == claims_of(
                old(st).claims@,
                b,
            ),
{
    let mut queue = list_claims(st, addr);
    queue.push(Claim { amount, release_at });
    replace_claims(st, addr, queue);
}

/// The effective cap: an absent cap only leaves out what would overflow.
pub open spec fn cap_value(cap: Option<u128>) -> u128 {
    match cap {
        Option::None => u128::MAX,
        Option::Some(c) => c,
    }
}

/// Total paid out by draining `s` greedily in order: a claim is included
/// exactly when it has matured and fits under the cap with what is already
/// included.
pub open spec fn take_send(s: Seq<Claim>, block: BlockInfo, cap: u128, acc: u128) -> u128
    decreases s.len(),
{
    if s.len() == 0 {
        acc
    } else {
        let c = s[0];
        if c.release_at.spec_is_expired(block) && acc + c.amount <= cap {
            take_send(s.drop_first(), block, cap, (acc + c.amount) as u128)
        } else {
            take_send(s.drop_first(), block, cap, acc)
        }
    }
}

/// The claims that stay queued when `s` is drained greedily in order.
pub open spec fn take_wait(s: Seq<Claim>, block: BlockInfo, cap: u128, acc: u128) -> Seq<Claim>
    decreases s.len(),
{
    if s.len() == 0 {
        Seq::empty()
    } else {
        let c = s[0];
        if c.release_at.spec_is_expired(block) && acc + c.amount <= cap {
            take_wait(s.drop_first(), block, cap, (acc + c.amount) as u128)
        } else {
            seq![c] + take_wait(s.drop_first(), block, cap, acc)
        }
    }
}

/// Drains the matured claims of an address, greedily in queue order and up
/// to the optional cap, and returns the total released. When nothing can be
/// paid out the queue is left untouched.
pub fn claim_tokens(st: &mut Ledger, addr: &Vec<u8>, block: &BlockInfo, cap: Option<u128>) -> (amount:
    u128)
    requires
        claims_unique(old(st).claims@),
    ensures
        final(st).config == old(st).config,
        final(st).state == old(st).state,
        final(st).holders == old(st).holders,
        claims_unique(final(st).claims@),
        amount == take_send(claims_of(old(st).claims@, addr@), *block, cap_value(cap), 0),
        amount > 0 ==> claims_of(final(st).claims@, addr@) == take_wait(
            claims_of(old(st).claims@, addr@),
            *block,
            cap_value(cap),
            0,
        ),
        amount > 0 ==> forall|b: Seq<u8>|
            b != addr@ ==> #[trigger] claims_of(final(st).claims@, b) == claims_of(
                old(st).claims@,
                b,
            ),
        amount == 0 ==> *final(st) == *old(st),
{
    let queue = list_claims(st, addr);
    let ghost cv = queue@;
    let capv: u128 = match cap {
        Option::Some(c) => c,
        Option::None => u128::MAX,
    };
    let mut to_send: u128 = 0;
    let mut waiting: Vec<Claim> = Vec::new();
    let mut i: usize = 0;
    proof {
        assert(cv.skip(0) =~= cv);
        assert(waiting@ + take_wait(cv, *block, capv, 0) =~= take_wait(cv, *block, capv, 0));
    }
    while i < queue.len()
        invariant
            i <= cv.len(),
            cv == queue@,
            capv == cap_value(cap),
            to_send <= capv,
            take_send(cv, *block, capv, 0) == take_send(
                cv.skip(i as int),
                *block,
                capv,
                to_send,
            ),
            take_wait(cv, *block, capv, 0) == waiting@ + take_wait(
                cv.skip(i as int),
                *block,
                capv,
                to_send,
            ),
        decreases cv.len() - i,
    {
        proof {
            assert(cv.skip(i as int)[0] == cv[i as int]);
            assert(cv.skip(i as int).drop_first() =~= cv.skip(i as int + 1));
        }
        let c = queue[i];
        if c.release_at.is_expired(block) && c.amount <= capv - to_send {
            to_send = to_send + c.amount;
        } else {
            let ghost w_old = waiting@;
            waiting.push(c);
            proof {
                assert(w_old + (seq![c] + take_wait(cv.skip(i as int + 1), *block, capv, to_send))
                    =~= waiting@ + take_wait(cv.skip(i as int + 1), *block, capv, to_send));
            }
        }
        i = i + 1;
    }
    proof {
        assert(cv.skip(cv.len() as int) =~= Seq::<Claim>::empty());
        assert(take_wait(cv, *block, capv, 0) =~= waiting@);
    }
    if to_send > 0 {
        replace_claims(st, addr, waiting);
    }
    to_send
}

/// Lists the claim queue of an address.
pub fn query_claims(st: &Ledger, addr: &Vec<u8>) -> (r: ClaimsResponse)
    ensures
        r.claims@ == claims_of(st.claims@, addr@),
{
    ClaimsResponse { claims: list_claims(st, addr) }
}

} // verus!
