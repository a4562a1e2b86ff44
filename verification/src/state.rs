//! The ledger state store: configuration, global state, per-holder records
//! and per-holder claim queues, held as explicit state objects.
//!
//! Holder records are kept sorted by address bytes, which gives the
//! pagination query its stable cursor order. Claim queues are keyed by
//! address with no particular order.

use crate::claim::Claim;
use crate::math::{add_wide, mul_wide, wide_le, wide_val, Decimal, Wide, DECIMAL_FRACTIONAL};
use crate::msg::HolderResponse;
use vstd::arithmetic::mul::{lemma_mul_is_distributive_add, lemma_mul_nonnegative};
use vstd::prelude::*;

verus! {

/// Immutable configuration of one ledger instance.
#[derive(Debug)]
pub struct Config {
    /// Identifier (address bytes) of the staked asset.
    pub staked_token: Vec<u8>,
    /// Identifier (address bytes) of the reward asset.
    pub reward_token: Vec<u8>,
    /// Delay, in block heights, between unbonding and withdrawal.
    pub unbonding_period: u64,
    /// Optional cap on the reward inflow recognised per accrual period.
    pub reward_cap: Option<u128>,
    /// Optional length of the accrual period, in seconds.
    pub accrual_period: Option<u64>,
}

/// The single global accounting record.
#[derive(Clone, Copy, Debug, PartialEq, Eq, Structural)]
pub struct State {
    /// Cumulative reward per unit of stake; never decreases.
    pub global_index: Decimal,
    /// Sum of all holder balances.
    pub total_balance: u128,
    /// Snapshot of the last observed external reward-pool balance.
    pub prev_reward_balance: u128,
    /// When the next accrual may run; present exactly when a period is
    /// configured.
    pub next_accrual_time: Option<u64>,
}

/// One participant's record; the default for a never-seen address is all
/// zero.
#[derive(Clone, Copy, Debug, PartialEq, Eq, Structural)]
pub struct Holder {
    /// Staked amount.
    pub balance: u128,
    /// The global index this holder was last reconciled against.
    pub index: Decimal,
    /// Settled but unpaid rewards, including the fractional remainder.
    pub pending_rewards: Decimal,
}

pub open spec fn zero_holder() -> Holder {
    Holder { balance: 0, index: Decimal::spec_zero(), pending_rewards: Decimal::spec_zero() }
}

/// A holder record together with its address key.
#[derive(Debug)]
pub struct HolderEntry {
    pub addr: Vec<u8>,
    pub holder: Holder,
}

/// A claim queue together with its address key.
#[derive(Debug)]
pub struct ClaimsEntry {
    pub addr: Vec<u8>,
    pub claims: Vec<Claim>,
}

/// The whole persistent state of one ledger instance.
pub struct Ledger {
    pub config: Config,
    pub state: State,
    /// Holder records, strictly ordered by address bytes.
    pub holders: Vec<HolderEntry>,
    /// Claim queues, with pairwise distinct addresses.
    pub claims: Vec<ClaimsEntry>,
}

/// Strict lexicographic order on byte strings.
pub open spec fn lex_lt(a: Seq<u8>, b: Seq<u8>) -> bool
    decreases a.len(),
{
    if b.len() == 0 {
        false
    } else if a.len() == 0 {
        true
    } else if a[0] < b[0] {
        true
    } else if a[0] > b[0] {
        false
    } else {
        lex_lt(a.drop_first(), b.drop_first())
    }
}

pub proof fn lemma_lex_irrefl(a: Seq<u8>)
    ensures
        !lex_lt(a, a),
    decreases a.len(),
{
    if a.len() > 0 {
        lemma_lex_irrefl(a.drop_first());
    }
}

pub proof fn lemma_lex_trans(a: Seq<u8>, b: Seq<u8>, c: Seq<u8>)
    requires
        lex_lt(a, b),
        lex_lt(b, c),
    ensures
        lex_lt(a, c),
    decreases a.len(),
{
    if b.len() > 0 && c.len() > 0 && a.len() > 0 {
        if a[0] == b[0] && b[0] == c[0] {
            lemma_lex_trans(a.drop_first(), b.drop_first(), c.drop_first());
        }
    }
}

/// Any two byte strings are ordered or equal.
pub proof fn lemma_lex_connex(a: Seq<u8>, b: Seq<u8>)
    ensures
        lex_lt(a, b) || lex_lt(b, a) || a == b,
    decreases a.len(),
{
    if a.len() > 0 && b.len() > 0 && a[0] == b[0] {
        lemma_lex_connex(a.drop_first(), b.drop_first());
        if a.drop_first() == b.drop_first() {
            assert(a =~= seq![a[0]] + a.drop_first());
            assert(b =~= seq![b[0]] + b.drop_first());
        }
    } else if a.len() == 0 && b.len() == 0 {
        assert(a =~= b);
    }
}

/// Copies address bytes.
pub fn copy_addr(a: &Vec<u8>) -> (r: Vec<u8>)
    ensures
        r@ == a@,
{
    let mut r: Vec<u8> = Vec::new();
    let mut i: usize = 0;
    while i < a.len()
        invariant
            i <= a.len(),
            r@ == a@.take(i as int),
        decreases a.len() - i,
    {
        r.push(a[i]);
        proof {
            assert(a@.take(i + 1 as int) =~= a@.take(i as int).push(a@[i as int]));
        }
        i = i + 1;
    }
    proof {
        assert(a@.take(a@.len() as int) =~= a@);
    }
    r
}

/// Byte equality of two addresses.
pub fn addr_eq(a: &Vec<u8>, b: &Vec<u8>) -> (r: bool)
    ensures
        r == (a@ == b@),
{
    if a.len() != b.len() {
        proof {
            assert(a@ != b@);
        }
        return false;
    }
    let mut i: usize = 0;
    while i < a.len()
        invariant
            i <= a.len(),
            a@.len() == b@.len(),
            forall|k: int| 0 <= k < i ==> a@[k] == b@[k],
        decreases a.len() - i,
    {
        if a[i] != b[i] {
            return false;
        }
        i = i + 1;
    }
    proof {
        assert(a@ =~= b@);
    }
    true
}

/// Strict lexicographic comparison of two addresses.
pub fn addr_lt(a: &Vec<u8>, b: &Vec<u8>) -> (r: bool)
    ensures
        r == lex_lt(a@, b@),
{
    let mut i: usize = 0;
    proof {
        assert(a@.skip(0) =~= a@);
        assert(b@.skip(0) =~= b@);
    }
    while i < a.len() && i < b.len()
        invariant
            i <= a.len(),
            i <= b.len(),
            lex_lt(a@, b@) == lex_lt(a@.skip(i as int), b@.skip(i as int)),
        decreases a.len() - i,
    {
        let x = a[i];
        let y = b[i];
        if x < y {
            return true;
        }
        if x > y {
            return false;
        }
        proof {
            assert(a@.skip(i as int).drop_first() =~= a@.skip(i + 1));
            assert(b@.skip(i as int).drop_first() =~= b@.skip(i + 1));
        }
        i = i + 1;
    }
    proof {
        if i < b.len() {
            assert(lex_lt(a@.skip(i as int), b@.skip(i as int)));
        } else {
            assert(!lex_lt(a@.skip(i as int), b@.skip(i as int)));
        }
    }
    i < b.len()
}

/// The index of the first holder record with the given address, or -1.
pub open spec fn find_holder(s: Seq<HolderEntry>, a: Seq<u8>) -> int
    decreases s.len(),
{
    if s.len() == 0 {
        -1
    } else if s[0].addr@ == a {
        0
    } else {
        let r = find_holder(s.drop_first(), a);
        if r == -1 {
            -1
        } else {
            r + 1
        }
    }
}

pub open spec fn has_holder(s: Seq<HolderEntry>, a: Seq<u8>) -> bool {
    find_holder(s, a) >= 0
}

/// The holder record stored under an address, or the zero default.
pub open spec fn holder_of(s: Seq<HolderEntry>, a: Seq<u8>) -> Holder {
    if find_holder(s, a) >= 0 {
        s[find_holder(s, a)].holder
    } else {
        zero_holder()
    }
}

/// What `find_holder` returns: the first index whose address matches, or -1
/// when no address matches.
pub proof fn lemma_find_holder(s: Seq<HolderEntry>, a: Seq<u8>)
    ensures
        -1 <= find_holder(s, a) < s.len(),
        find_holder(s, a) == -1 ==> forall|i: int| 0 <= i < s.len() ==> s[i].addr@ != a,
        find_holder(s, a) >= 0 ==> s[find_holder(s, a)].addr@ == a,
        find_holder(s, a) >= 0 ==> forall|i: int| 0 <= i < find_holder(s, a) ==> s[i].addr@ != a,
    decreases s.len(),
{
    if s.len() > 0 && s[0].addr@ != a {
        lemma_find_holder(s.drop_first(), a);
        let r = find_holder(s, a);
        if r == -1 {
            assert forall|i: int| 0 <= i < s.len() implies s[i].addr@ != a by {
                if i >= 1 {
                    assert(s.drop_first()[i - 1] == s[i]);
                }
            }
        } else {
            assert forall|i: int| 0 <= i < r implies s[i].addr@ != a by {
                if i >= 1 {
                    assert(s.drop_first()[i - 1] == s[i]);
                }
            }
        }
    }
}

/// Addresses of the holder records are strictly increasing.
pub open spec fn holders_sorted(s: Seq<HolderEntry>) -> bool {
    forall|i: int, j: int|
        0 <= i < j < s.len() ==> lex_lt(#[trigger] s[i].addr@, #[trigger] s[j].addr@)
}

/// In a sorted sequence every record is the one its own address finds.
pub proof fn lemma_holder_at(s: Seq<HolderEntry>, i: int)
    requires
        holders_sorted(s),
        0 <= i < s.len(),
    ensures
        find_holder(s, s[i].addr@) == i,
        holder_of(s, s[i].addr@) == s[i].holder,
{
    lemma_find_holder(s, s[i].addr@);
    let r = find_holder(s, s[i].addr@);
    if r < i {
        lemma_lex_irrefl(s[i].addr@);
    } else if r > i {
        lemma_lex_irrefl(s[i].addr@);
    }
}

/// Sum of the staked balances over a sequence of holder records.
pub open spec fn sum_balances(s: Seq<HolderEntry>) -> int
    decreases s.len(),
{
    if s.len() == 0 {
        0
    } else {
        s[0].holder.balance + sum_balances(s.drop_first())
    }
}

pub proof fn lemma_sum_nonneg(s: Seq<HolderEntry>)
    ensures
        sum_balances(s) >= 0,
    decreases s.len(),
{
    if s.len() > 0 {
        lemma_sum_nonneg(s.drop_first());
    }
}

pub proof fn lemma_sum_append(x: Seq<HolderEntry>, y: Seq<HolderEntry>)
    ensures
        sum_balances(x + y) == sum_balances(x) + sum_balances(y),
    decreases x.len(),
{
    if x.len() == 0 {
        assert(x + y =~= y);
    } else {
        lemma_sum_append(x.drop_first(), y);
        assert((x + y).drop_first() =~= x.drop_first() + y);
    }
}

/// Removing the record at `i` takes exactly its balance out of the sum.
pub proof fn lemma_sum_remove(s: Seq<HolderEntry>, i: int)
    requires
        0 <= i < s.len(),
    ensures
        sum_balances(s) == sum_balances(s.remove(i)) + s[i].holder.balance,
{
    let left = s.take(i);
    let right = s.skip(i + 1);
    assert(s =~= left + (seq![s[i]] + right));
    assert(s.remove(i) =~= left + right);
    lemma_sum_append(left, seq![s[i]] + right);
    lemma_sum_append(left, right);
    assert((seq![s[i]] + right).drop_first() =~= right);
    assert(sum_balances(seq![s[i]] + right) == s[i].holder.balance + sum_balances(right));
}

/// Inserting a record at `i` adds exactly its balance to the sum.
pub proof fn lemma_sum_insert(s: Seq<HolderEntry>, i: int, e: HolderEntry)
    requires
        0 <= i <= s.len(),
    ensures
        sum_balances(s.insert(i, e)) == sum_balances(s) + e.holder.balance,
{
    lemma_sum_remove(s.insert(i, e), i);
    assert(s.insert(i, e).remove(i) =~= s);
}

/// A single balance never exceeds the sum it is part of.
pub proof fn lemma_balance_le_sum(s: Seq<HolderEntry>, i: int)
    requires
        0 <= i < s.len(),
    ensures
        s[i].holder.balance <= sum_balances(s),
{
    lemma_sum_remove(s, i);
    lemma_sum_nonneg(s.remove(i));
}

/// A stored balance never exceeds the recorded sum.
pub proof fn lemma_holder_balance_le_sum(s: Seq<HolderEntry>, a: Seq<u8>)
    ensures
        holder_of(s, a).balance <= sum_balances(s),
{
    lemma_find_holder(s, a);
    if find_holder(s, a) >= 0 {
        lemma_balance_le_sum(s, find_holder(s, a));
    } else {
        lemma_sum_nonneg(s);
    }
}

/// A holder's settled entitlement in atomics: pending rewards plus the
/// index gap times the balance.
pub open spec fn entitlement(gi: Decimal, h: Holder) -> int {
    h.pending_rewards.atomics + (gi.atomics - h.index.atomics) * h.balance
}

/// Total settled entitlement over a sequence of holder records.
pub open spec fn sum_entitlements(s: Seq<HolderEntry>, gi: Decimal) -> int
    decreases s.len(),
{
    if s.len() == 0 {
        0
    } else {
        entitlement(gi, s[0].holder) + sum_entitlements(s.drop_first(), gi)
    }
}

pub proof fn lemma_entitlement_nonneg(gi: Decimal, h: Holder)
    requires
        h.index.atomics <= gi.atomics,
    ensures
        entitlement(gi, h) >= 0,
{
    lemma_mul_nonnegative(gi.atomics - h.index.atomics, h.balance as int);
}

pub proof fn lemma_sum_ent_nonneg(s: Seq<HolderEntry>, gi: Decimal)
    requires
        forall|i: int| 0 <= i < s.len() ==> (#[trigger] s[i]).holder.index.atomics <= gi.atomics,
    ensures
        sum_entitlements(s, gi) >= 0,
    decreases s.len(),
{
    if s.len() > 0 {
        lemma_entitlement_nonneg(gi, s[0].holder);
        assert forall|i: int|
            0 <= i < s.drop_first().len() implies (#[trigger] s.drop_first()[i]).holder.index.atomics
            <= gi.atomics by {
            assert(s.drop_first()[i] == s[i + 1]);
        }
        lemma_sum_ent_nonneg(s.drop_first(), gi);
    }
}

pub proof fn lemma_ent_append(x: Seq<HolderEntry>, y: Seq<HolderEntry>, gi: Decimal)
    ensures
        sum_entitlements(x + y, gi) == sum_entitlements(x, gi) + sum_entitlements(y, gi),
    decreases x.len(),
{
    if x.len() == 0 {
        assert(x + y =~= y);
    } else {
        lemma_ent_append(x.drop_first(), y, gi);
        assert((x + y).drop_first() =~= x.drop_first() + y);
    }
}

/// Removing the record at `i` takes exactly its entitlement out of the sum.
pub proof fn lemma_ent_remove(s: Seq<HolderEntry>, i: int, gi: Decimal)
    requires
        0 <= i < s.len(),
    ensures
        sum_entitlements(s, gi) == sum_entitlements(s.remove(i), gi) + entitlement(
            gi,
            s[i].holder,
        ),
{
    let left = s.take(i);
    let right = s.skip(i + 1);
    assert(s =~= left + (seq![s[i]] + right));
    assert(s.remove(i) =~= left + right);
    lemma_ent_append(left, seq![s[i]] + right, gi);
    lemma_ent_append(left, right, gi);
    assert((seq![s[i]] + right).drop_first() =~= right);
    assert(sum_entitlements(seq![s[i]] + right, gi) == entitlement(gi, s[i].holder)
        + sum_entitlements(right, gi));
}

/// Inserting a record at `i` adds exactly its entitlement to the sum.
pub proof fn lemma_ent_insert(s: Seq<HolderEntry>, i: int, e: HolderEntry, gi: Decimal)
    requires
        0 <= i <= s.len(),
    ensures
        sum_entitlements(s.insert(i, e), gi) == sum_entitlements(s, gi) + entitlement(
            gi,
            e.holder,
        ),
{
    lemma_ent_remove(s.insert(i, e), i, gi);
    assert(s.insert(i, e).remove(i) =~= s);
}

/// The entitlement stored under any address is within the total.
pub proof fn lemma_holder_ent_le_sum(s: Seq<HolderEntry>, gi: Decimal, a: Seq<u8>)
    requires
        forall|i: int| 0 <= i < s.len() ==> (#[trigger] s[i]).holder.index.atomics <= gi.atomics,
    ensures
        0 <= entitlement(gi, holder_of(s, a)) <= sum_entitlements(s, gi),
{
    lemma_find_holder(s, a);
    let m = find_holder(s, a);
    if m >= 0 {
        lemma_ent_remove(s, m, gi);
        assert forall|i: int|
            0 <= i < s.remove(m).len() implies (#[trigger] s.remove(m)[i]).holder.index.atomics
            <= gi.atomics by {
            if i < m {
                assert(s.remove(m)[i] == s[i]);
            } else {
                assert(s.remove(m)[i] == s[i + 1]);
            }
        }
        lemma_sum_ent_nonneg(s.remove(m), gi);
        lemma_entitlement_nonneg(gi, s[m].holder);
    } else {
        assert((gi.atomics - 0) * 0 == 0) by (nonlinear_arith);
        lemma_sum_ent_nonneg(s, gi);
    }
}

/// Raising the global index raises the total entitlement by the gap times
/// the total balance.
pub proof fn lemma_sum_ent_shift(s: Seq<HolderEntry>, gi: Decimal, gi2: Decimal)
    ensures
        sum_entitlements(s, gi2) == sum_entitlements(s, gi) + (gi2.atomics - gi.atomics)
            * sum_balances(s),
    decreases s.len(),
{
    let d = gi2.atomics - gi.atomics;
    if s.len() == 0 {
        assert(d * sum_balances(s) == 0) by (nonlinear_arith)
            requires
                sum_balances(s) == 0,
        ;
    } else {
        lemma_sum_ent_shift(s.drop_first(), gi, gi2);
        let b = s[0].holder.balance as int;
        let ix = s[0].holder.index.atomics as int;
        assert((gi2.atomics - ix) * b == (gi.atomics - ix) * b + d * b) by (nonlinear_arith)
            requires
                d == gi2.atomics - gi.atomics,
        ;
        lemma_mul_is_distributive_add(d, b, sum_balances(s.drop_first()));
    }
}

/// Addresses of the claim queues are pairwise distinct.
pub open spec fn claims_unique(s: Seq<ClaimsEntry>) -> bool {
    forall|i: int, j: int|
        0 <= i < j < s.len() ==> #[trigger] s[i].addr@ != #[trigger] s[j].addr@
}

/// The index of the first claim queue with the given address, or -1.
pub open spec fn find_claims(s: Seq<ClaimsEntry>, a: Seq<u8>) -> int
    decreases s.len(),
{
    if s.len() == 0 {
        -1
    } else if s[0].addr@ == a {
        0
    } else {
        let r = find_claims(s.drop_first(), a);
        if r == -1 {
            -1
        } else {
            r + 1
        }
    }
}

/// The claim queue stored under an address, or the empty default.
pub open spec fn claims_of(s: Seq<ClaimsEntry>, a: Seq<u8>) -> Seq<Claim> {
    if find_claims(s, a) >= 0 {
        s[find_claims(s, a)].claims@
    } else {
        Seq::empty()
    }
}

pub proof fn lemma_find_claims(s: Seq<ClaimsEntry>, a: Seq<u8>)
    ensures
        -1 <= find_claims(s, a) < s.len(),
        find_claims(s, a) == -1 ==> forall|i: int| 0 <= i < s.len() ==> s[i].addr@ != a,
        find_claims(s, a) >= 0 ==> s[find_claims(s, a)].addr@ == a,
        find_claims(s, a) >= 0 ==> forall|i: int| 0 <= i < find_claims(s, a) ==> s[i].addr@ != a,
    decreases s.len(),
{
    if s.len() > 0 && s[0].addr@ != a {
        lemma_find_claims(s.drop_first(), a);
        let r = find_claims(s, a);
        if r == -1 {
            assert forall|i: int| 0 <= i < s.len() implies s[i].addr@ != a by {
                if i >= 1 {
                    assert(s.drop_first()[i - 1] == s[i]);
                }
            }
        } else {
            assert forall|i: int| 0 <= i < r implies s[i].addr@ != a by {
                if i >= 1 {
                    assert(s.drop_first()[i - 1] == s[i]);
                }
            }
        }
    }
}

impl Ledger {
    /// The ledger invariant: holder records are strictly sorted by address,
    /// the recorded total equals the sum of all holder balances, no holder
    /// index exceeds the global index, the total settled entitlement stays
    /// within the recorded reward baseline (so claim payouts cannot drive
    /// the baseline below zero), claim queues have distinct keys, and the
    /// accrual gate is present exactly when a period is configured.
    pub open spec fn inv(self) -> bool {
        &&& holders_sorted(self.holders@)
        &&& self.state.total_balance == sum_balances(self.holders@)
        &&& forall|a: Seq<u8>|
            #[trigger] holder_of(self.holders@, a).index.atomics
                <= self.state.global_index.atomics
        &&& sum_entitlements(self.holders@, self.state.global_index)
            <= self.state.prev_reward_balance * DECIMAL_FRACTIONAL
        &&& claims_unique(self.claims@)
        &&& self.state.next_accrual_time.is_some() == self.config.accrual_period.is_some()
    }
}

/// Reads a holder record; a never-seen address yields the zero default.
pub fn read_holder(st: &Ledger, addr: &Vec<u8>) -> (h: Holder)
    ensures
        h == holder_of(st.holders@, addr@),
{
    let ghost s = st.holders@;
    let mut i: usize = 0;
    while i < st.holders.len()
        invariant
            i <= s.len(),
            s == st.holders@,
            forall|k: int| 0 <= k < i ==> s[k].addr@ != addr@,
        decreases s.len() - i,
    {
        if addr_eq(&st.holders[i].addr, addr) {
            proof {
                lemma_find_holder(s, addr@);
                let r = find_holder(s, addr@);
                assert(r == i);
            }
            return st.holders[i].holder;
        }
        i = i + 1;
    }
    proof {
        lemma_find_holder(s, addr@);
    }
    Holder { balance: 0, index: Decimal::zero(), pending_rewards: Decimal::zero() }
}

/// In a sorted sequence, an address occurs at most once.
pub proof fn lemma_sorted_unique(s: Seq<HolderEntry>, x: int, y: int)
    requires
        holders_sorted(s),
        0 <= x < s.len(),
        0 <= y < s.len(),
        s[x].addr@ == s[y].addr@,
    ensures
        x == y,
{
    if x < y || y < x {
        lemma_lex_irrefl(s[x].addr@);
    }
}

/// Writes a holder record under an address, inserting or overwriting, and
/// leaving every other part of the ledger as it was.
pub fn store_holder(st: &mut Ledger, addr: &Vec<u8>, holder: Holder)
    requires
        holders_sorted(old(st).holders@),
    ensures
        final(st).config == old(st).config,
        final(st).state == old(st).state,
        final(st).claims == old(st).claims,
        holders_sorted(final(st).holders@),
        holder_of(final(st).holders@, addr@) == holder,
        has_holder(final(st).holders@, addr@),
        forall|b: Seq<u8>|
            b != addr@ ==> #[trigger] holder_of(final(st).holders@, b) == holder_of(
                old(st).holders@,
                b,
            ),
        forall|b: Seq<u8>|
            b != addr@ ==> #[trigger] has_holder(final(st).holders@, b) == has_holder(
                old(st).holders@,
                b,
            ),
        sum_balances(final(st).holders@) == sum_balances(old(st).holders@) + holder.balance
            - holder_of(old(st).holders@, addr@).balance,
        forall|g: Decimal|
            #[trigger] sum_entitlements(final(st).holders@, g) == sum_entitlements(
                old(st).holders@,
                g,
            ) + entitlement(g, holder) - entitlement(g, holder_of(old(st).holders@, addr@)),
{
    let ghost s0 = old(st).holders@;
    // find the insertion point: the first record not below addr
    let mut i: usize = 0;
    while i < st.holders.len() && addr_lt(&st.holders[i].addr, addr)
        invariant
            *st == *old(st),
            i <= s0.len(),
            s0 == st.holders@,
            forall|k: int| 0 <= k < i ==> lex_lt(#[trigger] s0[k].addr@, addr@),
        decreases s0.len() - i,
    {
        i = i + 1;
    }
    let found = i < st.holders.len() && addr_eq(&st.holders[i].addr, addr);
    proof {
        if !found && i < s0.len() {
            lemma_lex_connex(s0[i as int].addr@, addr@);
            assert(lex_lt(addr@, s0[i as int].addr@));
        }
    }
    if found {
        st.holders.remove(i);
    }
    let ghost mid = st.holders@;
    proof {
        // every record before position i is below addr, every one from i on
        // is above it, and addr itself is absent
        if found {
            assert(mid =~= s0.remove(i as int));
            lemma_holder_at(s0, i as int);
            lemma_sum_remove(s0, i as int);
        } else {
            lemma_find_holder(s0, addr@);
            assert forall|k: int| 0 <= k < s0.len() implies s0[k].addr@ != addr@ by {
                lemma_lex_irrefl(addr@);
                if k > i as int {
                    lemma_lex_trans(addr@, s0[i as int].addr@, s0[k].addr@);
                }
            }
            assert(find_holder(s0, addr@) == -1);
        }
        assert forall|k: int| 0 <= k < i implies lex_lt(#[trigger] mid[k].addr@, addr@) by {}
        assert forall|k: int| i <= k < mid.len() implies lex_lt(
            addr@,
            #[trigger] mid[k].addr@,
        ) by {
            if found {
                assert(mid[k] == s0[k + 1]);
                assert(lex_lt(s0[i as int].addr@, s0[k + 1].addr@));
            } else {
                if k > i as int {
                    lemma_lex_trans(addr@, s0[i as int].addr@, s0[k].addr@);
                }
            }
        }
        assert(holders_sorted(mid));
    }
    let entry = HolderEntry { addr: copy_addr(addr), holder };
    st.holders.insert(i, entry);
    proof {
        let t = st.holders@;
        assert(t == mid.insert(i as int, entry));
        assert(t[i as int].addr@ == addr@ && t[i as int].holder == holder);
        assert forall|x: int| 0 <= x < t.len() && x != i implies (#[trigger] t[x].addr@ != addr@
            && (x < i ==> t[x] == mid[x] && lex_lt(t[x].addr@, addr@)) && (x > i ==> t[x] == mid[x
            - 1] && lex_lt(addr@, t[x].addr@))) by {
            lemma_lex_irrefl(addr@);
        }
        // the new sequence is sorted
        assert forall|x: int, y: int| 0 <= x < y < t.len() implies lex_lt(
            #[trigger] t[x].addr@,
            #[trigger] t[y].addr@,
        ) by {
            if x == i {
                assert(lex_lt(addr@, t[y].addr@));
            } else if y == i {
                assert(lex_lt(t[x].addr@, addr@));
            } else if x < i && y > i {
                lemma_lex_trans(t[x].addr@, addr@, t[y].addr@);
            }
        }
        // addr now maps to holder
        lemma_holder_at(t, i as int);
        // every other address maps to what it mapped to before
        assert forall|b: Seq<u8>| b != addr@ implies holder_of(t, b) == holder_of(s0, b)
            && has_holder(t, b) == has_holder(s0, b) by {
            lemma_find_holder(s0, b);
            lemma_find_holder(t, b);
            let m = find_holder(s0, b);
            let r = find_holder(t, b);
            if m >= 0 {
                // the same record still sits in t
                let w = if found {
                    if m < i as int {
                        m
                    } else {
                        m
                    }
                } else {
                    if m < i as int {
                        m
                    } else {
                        m + 1
                    }
                };
                assert(t[w] == s0[m]) by {
                    if found {
                        assert(m != i as int);
                        if m < i as int {
                            assert(t[m] == mid[m] && mid[m] == s0[m]);
                        } else {
                            assert(t[m] == mid[m - 1] && mid[m - 1] == s0[m]);
                        }
                    } else {
                        if m < i as int {
                            assert(t[m] == mid[m]);
                        } else {
                            assert(t[m + 1] == mid[m]);
                        }
                    }
                }
                assert(r >= 0);
                lemma_sorted_unique(t, r, w);
            } else {
                // b is absent from t as well
                assert forall|x: int| 0 <= x < t.len() implies #[trigger] t[x].addr@ != b by {
                    if x != i as int {
                        if found {
                            if x < i as int {
                                assert(t[x] == s0[x]);
                            } else {
                                assert(t[x] == s0[x]);
                            }
                        } else {
                            if x < i as int {
                                assert(t[x] == s0[x]);
                            } else {
                                assert(t[x] == s0[x - 1]);
                            }
                        }
                    }
                }
                assert(r == -1);
            }
        }
        // the sum moves by the difference of the two balances
        lemma_sum_insert(mid, i as int, entry);
        if !found {
            lemma_find_holder(s0, addr@);
        }
        // and so does the total entitlement, at any global index
        assert forall|g: Decimal| #[trigger] sum_entitlements(t, g) == sum_entitlements(s0, g)
            + entitlement(g, holder) - entitlement(g, holder_of(s0, addr@)) by {
            lemma_ent_insert(mid, i as int, entry, g);
            if found {
                lemma_ent_remove(s0, i as int, g);
            } else {
                assert((g.atomics - 0) * 0 == 0) by (nonlinear_arith);
            }
        }
    }
}

/// Default page size of the holders query.
pub const DEFAULT_LIMIT: u32 = 10;

/// Largest page size of the holders query.
pub const MAX_LIMIT: u32 = 30;

pub open spec fn addr_opt_view(o: Option<Vec<u8>>) -> Option<Seq<u8>> {
    match o {
        Option::None => Option::None,
        Option::Some(v) => Option::Some(v@),
    }
}

/// The requested page size, defaulted and clamped to `[1, MAX_LIMIT]`.
pub open spec fn clamped_limit(limit: Option<u32>) -> int {
    let l: int = match limit {
        Option::None => DEFAULT_LIMIT as int,
        Option::Some(v) => v as int,
    };
    if l < 1 {
        1
    } else if l > MAX_LIMIT as int {
        MAX_LIMIT as int
    } else {
        l
    }
}

/// Whether an address lies strictly after the (exclusive) cursor.
pub open spec fn after_start(start: Option<Seq<u8>>, a: Seq<u8>) -> bool {
    match start {
        Option::None => true,
        Option::Some(sa) => lex_lt(sa, a),
    }
}

/// The page: the first `lim` records whose address lies after the cursor,
/// in sequence order.
pub open spec fn page_of(s: Seq<HolderEntry>, start: Option<Seq<u8>>, lim: int) -> Seq<HolderEntry>
    decreases s.len(),
{
    if lim <= 0 || s.len() == 0 {
        Seq::empty()
    } else if after_start(start, s[0].addr@) {
        seq![s[0]] + page_of(s.drop_first(), start, lim - 1)
    } else {
        page_of(s.drop_first(), start, lim)
    }
}

/// Lists holders in address order, starting strictly after `start_after`,
/// at most `limit` (defaulted and clamped) of them.
pub fn read_holders(st: &Ledger, start_after: Option<Vec<u8>>, limit: Option<u32>) -> (r: Vec<
    HolderResponse,
>)
    ensures
        ({
            let pg = page_of(st.holders@, addr_opt_view(start_after), clamped_limit(limit));
            &&& r@.len() == pg.len()
            &&& forall|k: int|
                0 <= k < pg.len() ==> (#[trigger] r@[k]).address@ == pg[k].addr@
                    && r@[k].balance == pg[k].holder.balance && r@[k].index == pg[k].holder.index
                    && r@[k].pending_rewards == pg[k].holder.pending_rewards
        }),
{
    let ghost s = st.holders@;
    let ghost gstart = addr_opt_view(start_after);
    let ghost glim = clamped_limit(limit);
    let lim: u32 = match &limit {
        Option::Some(v) => if *v < 1 {
            1
        } else if *v > MAX_LIMIT {
            MAX_LIMIT
        } else {
            *v
        },
        Option::None => DEFAULT_LIMIT,
    };
    let mut res: Vec<HolderResponse> = Vec::new();
    let ghost mut taken: Seq<HolderEntry> = Seq::empty();
    let mut i: usize = 0;
    proof {
        assert(s.skip(0) =~= s);
        assert(taken + page_of(s, gstart, glim) =~= page_of(s, gstart, glim));
    }
    while i < st.holders.len()
        invariant
            i <= s.len(),
            s == st.holders@,
            lim as int == clamped_limit(limit),
            gstart == addr_opt_view(start_after),
            glim == clamped_limit(limit),
            res@.len() == taken.len(),
            taken.len() <= glim,
            forall|k: int|
                0 <= k < taken.len() ==> (#[trigger] res@[k]).address@ == taken[k].addr@
                    && res@[k].balance == taken[k].holder.balance && res@[k].index
                    == taken[k].holder.index && res@[k].pending_rewards
                    == taken[k].holder.pending_rewards,
            page_of(s, gstart, glim) == taken + page_of(
                s.skip(i as int),
                gstart,
                glim - taken.len(),
            ),
        decreases s.len() - i,
    {
        proof {
            assert(s.skip(i as int)[0] == s[i as int]);
            assert(s.skip(i as int).drop_first() =~= s.skip(i as int + 1));
        }
        let matched = match &start_after {
            Option::None => true,
            Option::Some(a) => addr_lt(a, &st.holders[i].addr),
        };
        if matched && res.len() < lim as usize {
            let ghost taken_old = taken;
            let entry = &st.holders[i];
            res.push(
                HolderResponse {
                    address: copy_addr(&entry.addr),
                    balance: entry.holder.balance,
                    index: entry.holder.index,
                    pending_rewards: entry.holder.pending_rewards,
                },
            );
            proof {
                taken = taken.push(s[i as int]);
                assert(page_of(s.skip(i as int), gstart, glim - taken_old.len()) == seq![
                    s[i as int],
                ] + page_of(s.skip(i as int + 1), gstart, glim - taken_old.len() - 1));
                assert(taken_old + (seq![s[i as int]] + page_of(
                    s.skip(i as int + 1),
                    gstart,
                    glim - taken.len(),
                )) =~= taken + page_of(s.skip(i as int + 1), gstart, glim - taken.len()));
            }
        } else {
            proof {
                if matched {
                    assert(glim - taken.len() == 0);
                    assert(page_of(s.skip(i as int), gstart, 0) =~= Seq::<HolderEntry>::empty());
                    assert(page_of(s.skip(i as int + 1), gstart, 0)
                        =~= Seq::<HolderEntry>::empty());
                } else {
                    assert(page_of(s.skip(i as int), gstart, glim - taken.len()) == page_of(
                        s.skip(i as int + 1),
                        gstart,
                        glim - taken.len(),
                    ));
                }
            }
        }
        i = i + 1;
    }
    proof {
        assert(s.skip(s.len() as int) =~= Seq::<HolderEntry>::empty());
        assert(page_of(s.skip(s.len() as int), gstart, glim - taken.len()) =~= Seq::<
            HolderEntry,
        >::empty());
        assert(page_of(s, gstart, glim) =~= taken);
    }
    res
}

/// Copies a claim queue.
pub fn copy_claims(v: &Vec<Claim>) -> (r: Vec<Claim>)
    ensures
        r@ == v@,
{
    let mut r: Vec<Claim> = Vec::new();
    let mut i: usize = 0;
    while i < v.len()
        invariant
            i <= v.len(),
            r@ == v@.take(i as int),
        decreases v.len() - i,
    {
        r.push(v[i]);
        proof {
            assert(v@.take(i + 1 as int) =~= v@.take(i as int).push(v@[i as int]));
        }
        i = i + 1;
    }
    proof {
        assert(v@.take(v@.len() as int) =~= v@);
    }
    r
}

/// Reads the claim queue of an address; a never-seen address yields the
/// empty queue.
pub fn list_claims(st: &Ledger, addr: &Vec<u8>) -> (r: Vec<Claim>)
    ensures
        r@ == claims_of(st.claims@, addr@),
{
    let ghost s = st.claims@;
    let mut i: usize = 0;
    while i < st.claims.len()
        invariant
            i <= s.len(),
            s == st.claims@,
            forall|k: int| 0 <= k < i ==> s[k].addr@ != addr@,
        decreases s.len() - i,
    {
        if addr_eq(&st.claims[i].addr, addr) {
            proof {
                lemma_find_claims(s, addr@);
                assert(find_claims(s, addr@) == i);
            }
            return copy_claims(&st.claims[i].claims);
        }
        i = i + 1;
    }
    proof {
        lemma_find_claims(s, addr@);
    }
    Vec::new()
}

/// Replaces the claim queue of an address, leaving every other part of the
/// ledger as it was.
pub fn replace_claims(st: &mut Ledger, addr: &Vec<u8>, claims: Vec<Claim>)
    requires
        claims_unique(old(st).claims@),
    ensures
        final(st).config == old(st).config,
        final(st).state == old(st).state,
        final(st).holders == old(st).holders,
        claims_unique(final(st).claims@),
        claims_of(final(st).claims@, addr@) == claims@,
        forall|b: Seq<u8>|
            b != addr@ ==> #[trigger] claims_of(final(st).claims@, b) == claims_of(
                old(st).claims@,
                b,
            ),
{
    let ghost s0 = old(st).claims@;
    let ghost cv = claims@;
    let mut i: usize = 0;
    while i < st.claims.len() && !addr_eq(&st.claims[i].addr, addr)
        invariant
            *st == *old(st),
            s0 == st.claims@,
            i <= s0.len(),
            forall|k: int| 0 <= k < i ==> s0[k].addr@ != addr@,
        decreases s0.len() - i,
    {
        i = i + 1;
    }
    let found = i < st.claims.len();
    proof {
        if found {
            assert(s0[i as int].addr@ == addr@);
        }
    }
    let entry = ClaimsEntry { addr: copy_addr(addr), claims };
    if found {
        st.claims.remove(i);
        st.claims.insert(i, entry);
        proof {
            let t = st.claims@;
            assert(t =~= s0.update(i as int, ClaimsEntry { addr: entry.addr, claims: entry.claims }));
            assert(forall|x: int| 0 <= x < t.len() ==> (#[trigger] t[x]).addr@ == s0[x].addr@);
            assert(forall|x: int|
                0 <= x < t.len() && x != i ==> #[trigger] t[x] == s0[x]);
            lemma_find_claims(s0, addr@);
            lemma_find_claims(t, addr@);
            assert forall|k: int| 0 <= k < i implies (#[trigger] t[k]).addr@ != addr@ by {
                assert(t[k] == s0[k]);
            }
            let r = find_claims(t, addr@);
            assert(t[i as int].addr@ == addr@);
            assert(r >= 0);
            assert(r == i);
            assert(claims_of(t, addr@) == cv);
            assert forall|b: Seq<u8>| b != addr@ implies #[trigger] claims_of(t, b) == claims_of(
                s0,
                b,
            ) by {
                lemma_find_claims(s0, b);
                lemma_find_claims(t, b);
                let m = find_claims(s0, b);
                let r = find_claims(t, b);
                if m >= 0 {
                    assert(m != i);
                    assert(t[m].addr@ == b);
                    assert(r >= 0);
                    if r != m {
                        assert(t[r].addr@ == t[m].addr@ && r != m);
                        assert(false);
                    }
                } else {
                    assert(forall|x: int| 0 <= x < t.len() ==> (#[trigger] t[x]).addr@ != b);
                    assert(r == -1);
                }
            }
        }
    } else {
        st.claims.push(entry);
        proof {
            let t = st.claims@;
            assert(t == s0.push(ClaimsEntry { addr: entry.addr, claims: entry.claims }));
            lemma_find_claims(s0, addr@);
            assert(find_claims(s0, addr@) == -1);
            assert(forall|x: int| 0 <= x < s0.len() ==> (#[trigger] t[x]) == s0[x]);
            assert(t[s0.len() as int].addr@ == addr@);
            assert forall|x: int, y: int| 0 <= x < y < t.len() implies (#[trigger] t[x].addr@)
                != (#[trigger] t[y].addr@) by {
                if y == s0.len() as int {
                    assert(s0[x].addr@ != addr@);
                }
            }
            lemma_find_claims(t, addr@);
            assert(find_claims(t, addr@) == s0.len());
            assert(claims_of(t, addr@) == cv);
            assert forall|b: Seq<u8>| b != addr@ implies #[trigger] claims_of(t, b) == claims_of(
                s0,
                b,
            ) by {
                lemma_find_claims(s0, b);
                lemma_find_claims(t, b);
                let m = find_claims(s0, b);
                let r = find_claims(t, b);
                if m >= 0 {
                    assert(t[m].addr@ == b);
                    assert(r >= 0);
                    if r != m {
                        assert(t[r].addr@ == t[m].addr@ && r != m);
                        assert(false);
                    }
                } else {
                    assert(forall|x: int| 0 <= x < t.len() ==> (#[trigger] t[x]).addr@ != b);
                    assert(r == -1);
                }
            }
        }
    }
}

/// Every stored holder record keeps its index at or below the global
/// index while the ledger invariant holds.
pub proof fn lemma_holder_indexes_bounded(st: Ledger, i: int)
    requires
        st.inv(),
        0 <= i < st.holders@.len(),
    ensures
        st.holders@[i].holder.index.atomics <= st.state.global_index.atomics,
{
    lemma_holder_at(st.holders@, i);
}

/// A chain of adjacent comparisons orders any two positions.
proof fn lemma_lex_chain(s: Seq<HolderEntry>, i: int, j: int)
    requires
        forall|k: int| 0 <= k < s.len() - 1 ==> lex_lt(#[trigger] s[k].addr@, s[k + 1].addr@),
        0 <= i < j < s.len(),
    ensures
        lex_lt(s[i].addr@, s[j].addr@),
    decreases j - i,
{
    if i + 1 < j {
        lemma_lex_chain(s, i, j - 1);
        lemma_lex_trans(s[i].addr@, s[j - 1].addr@, s[j].addr@);
    }
}

/// Decides the ledger invariant at run time, for callers outside the
/// verified world that load a ledger from storage they do not control.
pub fn check_inv(st: &Ledger) -> (r: bool)
    ensures
        r == st.inv(),
{
    let s = &st.holders;
    let ghost sv = st.holders@;
    // holder records strictly sorted by address
    let mut i: usize = 1;
    while i < s.len()
        invariant
            sv == st.holders@,
            s == st.holders,
            1 <= i,
            forall|k: int| 0 <= k < i - 1 ==> lex_lt(#[trigger] sv[k].addr@, sv[k + 1].addr@),
        decreases s.len() - i,
    {
        if !addr_lt(&s[i - 1].addr, &s[i].addr) {
            proof {
                assert(!holders_sorted(sv));
            }
            return false;
        }
        i = i + 1;
    }
    proof {
        assert forall|x: int, y: int| 0 <= x < y < sv.len() implies lex_lt(
            #[trigger] sv[x].addr@,
            #[trigger] sv[y].addr@,
        ) by {
            lemma_lex_chain(sv, x, y);
        }
    }
    // the recorded total equals the sum of the balances
    let mut total: u128 = 0;
    let mut k: usize = 0;
    proof {
        assert(sv.take(0) =~= Seq::<HolderEntry>::empty());
    }
    while k < s.len()
        invariant
            sv == st.holders@,
            s == st.holders,
            k <= sv.len(),
            total == sum_balances(sv.take(k as int)),
        decreases s.len() - k,
    {
        proof {
            lemma_sum_remove(sv.take(k + 1 as int), k as int);
            assert(sv.take(k + 1 as int).remove(k as int) =~= sv.take(k as int));
            assert(sum_balances(sv.take(k + 1 as int)) == sum_balances(sv.take(k as int))
                + sv[k as int].holder.balance);
        }
        total = match total.checked_add(s[k].holder.balance) {
            Some(t) => t,
            None => {
                proof {
                    assert(sv =~= sv.take(k + 1 as int) + sv.skip(k + 1 as int));
                    lemma_sum_append(sv.take(k + 1 as int), sv.skip(k + 1 as int));
                    lemma_sum_nonneg(sv.skip(k + 1 as int));
                    assert(sum_balances(sv) > u128::MAX);
                }
                return false;
            },
        };
        k = k + 1;
    }
    proof {
        assert(sv.take(sv.len() as int) =~= sv);
    }
    if total != st.state.total_balance {
        return false;
    }
    // no holder index ahead of the global index
    let mut m: usize = 0;
    while m < s.len()
        invariant
            sv == st.holders@,
            s == st.holders,
            holders_sorted(sv),
            m <= sv.len(),
            forall|k2: int|
                0 <= k2 < m ==> (#[trigger] sv[k2]).holder.index.atomics
                    <= st.state.global_index.atomics,
        decreases s.len() - m,
    {
        if s[m].holder.index.atomics > st.state.global_index.atomics {
            proof {
                lemma_holder_at(sv, m as int);
            }
            return false;
        }
        m = m + 1;
    }
    proof {
        assert forall|a: Seq<u8>|
            #[trigger] holder_of(sv, a).index.atomics <= st.state.global_index.atomics by {
            lemma_find_holder(sv, a);
        }
    }
    // the total settled entitlement stays within the recorded baseline
    let baseline = mul_wide(st.state.prev_reward_balance, DECIMAL_FRACTIONAL);
    let mut acc = Wide { hi: 0, lo: 0 };
    let mut e: usize = 0;
    proof {
        assert(sv.take(0) =~= Seq::<HolderEntry>::empty());
    }
    while e < s.len()
        invariant
            sv == st.holders@,
            s == st.holders,
            e <= sv.len(),
            forall|k2: int|
                0 <= k2 < sv.len() ==> (#[trigger] sv[k2]).holder.index.atomics
                    <= st.state.global_index.atomics,
            wide_val(baseline) == st.state.prev_reward_balance * DECIMAL_FRACTIONAL,
            wide_val(acc) == sum_entitlements(sv.take(e as int), st.state.global_index),
        decreases s.len() - e,
    {
        let gi = st.state.global_index;
        let h = s[e].holder;
        let owed = mul_wide(gi.atomics - h.index.atomics, h.balance);
        proof {
            lemma_ent_remove(sv.take(e + 1 as int), e as int, gi);
            assert(sv.take(e + 1 as int).remove(e as int) =~= sv.take(e as int));
            assert(sum_entitlements(sv.take(e + 1 as int), gi) == sum_entitlements(
                sv.take(e as int),
                gi,
            ) + entitlement(gi, h));
            assert(sv =~= sv.take(e + 1 as int) + sv.skip(e + 1 as int));
            lemma_ent_append(sv.take(e + 1 as int), sv.skip(e + 1 as int), gi);
            assert forall|k2: int|
                0 <= k2 < sv.skip(e + 1 as int).len() implies (#[trigger] sv.skip(
                e + 1 as int,
            )[k2]).holder.index.atomics <= gi.atomics by {
                assert(sv.skip(e + 1 as int)[k2] == sv[k2 + e + 1]);
            }
            lemma_sum_ent_nonneg(sv.skip(e + 1 as int), gi);
        }
        let acc1 = match add_wide(
            Wide { hi: acc.hi, lo: acc.lo },
            Wide { hi: owed.hi, lo: owed.lo },
        ) {
            Some(a) => a,
            None => {
                return false;
            },
        };
        let acc2 = match add_wide(acc1, Wide { hi: 0, lo: h.pending_rewards.atomics }) {
            Some(a) => a,
            None => {
                return false;
            },
        };
        acc = acc2;
        e = e + 1;
    }
    proof {
        assert(sv.take(sv.len() as int) =~= sv);
    }
    if !wide_le(&acc, &baseline) {
        return false;
    }
    // claim queues keyed by distinct addresses
    let cs = &st.claims;
    let ghost cv = st.claims@;
    let mut x: usize = 0;
    while x < cs.len()
        invariant
            cv == st.claims@,
            cs == st.claims,
            x <= cv.len(),
            forall|p: int, q: int| 0 <= p < q < cv.len() && p < x ==> (#[trigger] cv[p]).addr@ != (
            #[trigger] cv[q]).addr@,
        decreases cs.len() - x,
    {
        let mut y: usize = x + 1;
        while y < cs.len()
            invariant
                cv == st.claims@,
                cs == st.claims,
                x < y <= cv.len() || y == x + 1,
                x < cv.len(),
                forall|q: int| x < q < y ==> (#[trigger] cv[q]).addr@ != cv[x as int].addr@,
            decreases cs.len() - y,
        {
            if addr_eq(&cs[x].addr, &cs[y].addr) {
                proof {
                    assert(!claims_unique(cv));
                }
                return false;
            }
            y = y + 1;
        }
        x = x + 1;
    }
    // the accrual gate is present exactly when a period is configured
    let gate_ok = match (&st.state.next_accrual_time, &st.config.accrual_period) {
        (Option::Some(_t), Option::Some(_p)) => true,
        (Option::None, Option::None) => true,
        _ => false,
    };
    gate_ok
}

} // verus!
