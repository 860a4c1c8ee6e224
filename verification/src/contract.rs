use vstd::prelude::*;

use crate::error::ContractError;
use crate::msg::{
    ConfigResponse, Cw20HookMsg, InstantiateMsg, OrderBy, TransferIntent, VestingAccount,
    VestingAccountResponse, VestingAccountsResponse, VestingInfo, VestingInfoV, VestingSchedule,
};
use crate::state::{Config, Ledger, OwnershipProposal};
use crate::util::{addr_validate_to_lower, is_canonical};

verus! {

/// The longest time-to-live an ownership proposal may carry: 14 days in seconds.
pub const MAX_PROPOSAL_TTL: u64 = 1209600;

/// Checks the initial configuration and builds the singleton record.
/// Both identities must already be canonical.
pub fn instantiate(msg: &InstantiateMsg) -> (r: Result<Config, ContractError>)
    ensures
        match r {
            Ok(c) => is_canonical(msg.owner@) && is_canonical(msg.token_addr@) && c.owner@
                == msg.owner@ && c.token_addr@ == msg.token_addr@,
            Err(e) => (!is_canonical(msg.owner@) || !is_canonical(msg.token_addr@)) && e
                == ContractError::InvalidInput,
        },
{
    let owner = match addr_validate_to_lower(&msg.owner) {
        Ok(v) => v,
        Err(e) => {
            return Err(e);
        },
    };
    let token_addr = match addr_validate_to_lower(&msg.token_addr) {
        Ok(v) => v,
        Err(e) => {
            return Err(e);
        },
    };
    Ok(Config { owner, token_addr })
}

/// Offers control of the ledger to `new_owner`. Only the current owner
/// may propose; the proposed owner must differ from the current one and
/// be canonical; the time-to-live is bounded. A new proposal overwrites
/// any pending one.
pub fn propose_new_owner(
    config: &Config,
    proposal: &mut Option<OwnershipProposal>,
    now: u64,
    sender: &String,
    new_owner: String,
    expires_in: u64,
) -> (r: Result<(), ContractError>)
    ensures
        match r {
            Ok(_) => sender@ == config.owner@ && is_canonical(new_owner@) && new_owner@
                != config.owner@ && expires_in <= MAX_PROPOSAL_TTL && now + expires_in
                <= u64::MAX && (*final(proposal) matches Some(p) && p.owner@ == new_owner@
                && p.ttl == now + expires_in),
            Err(e) => *final(proposal) == *old(proposal) && (if sender@ != config.owner@ {
                e == ContractError::Unauthorized
            } else if !is_canonical(new_owner@) {
                e == ContractError::InvalidInput
            } else if new_owner@ == config.owner@ {
                e == ContractError::InvalidInput
            } else if expires_in > MAX_PROPOSAL_TTL {
                e == ContractError::InvalidInput
            } else {
                e == ContractError::Overflow && now + expires_in > u64::MAX
            }),
        },
{
    if !sender.eq(&config.owner) {
        return Err(ContractError::Unauthorized);
    }
    let new_owner = match addr_validate_to_lower(&new_owner) {
        Ok(v) => v,
        Err(e) => {
            return Err(e);
        },
    };
    if new_owner.eq(&config.owner) {
        return Err(ContractError::InvalidInput);
    }
    if expires_in > MAX_PROPOSAL_TTL {
        return Err(ContractError::InvalidInput);
    }
    let ttl = match now.checked_add(expires_in) {
        Some(t) => t,
        None => {
            return Err(ContractError::Overflow);
        },
    };
    *proposal = Some(OwnershipProposal { owner: new_owner, ttl });
    Ok(())
}

/// Withdraws any pending ownership proposal. Only the current owner may
/// drop it; dropping with none pending is a harmless no-op.
pub fn drop_ownership_proposal(
    config: &Config,
    proposal: &mut Option<OwnershipProposal>,
    sender: &String,
) -> (r: Result<(), ContractError>)
    ensures
        match r {
            Ok(_) => sender@ == config.owner@ && *final(proposal) is None,
            Err(e) => sender@ != config.owner@ && e == ContractError::Unauthorized
                && *final(proposal) == *old(proposal),
        },
{
    if !sender.eq(&config.owner) {
        return Err(ContractError::Unauthorized);
    }
    *proposal = None;
    Ok(())
}

/// Accepts a pending ownership proposal: only the proposed owner may
/// accept, and only until the proposal's expiry. Success installs the
/// new owner and consumes the proposal.
pub fn claim_ownership(
    config: &mut Config,
    proposal: &mut Option<OwnershipProposal>,
    now: u64,
    sender: &String,
) -> (r: Result<(), ContractError>)
    ensures
        match r {
            Ok(_) => (*old(proposal) matches Some(p) && sender@ == p.owner@ && now <= p.ttl
                && final(config).owner@ == p.owner@ && final(config).token_addr == old(
                config,
            ).token_addr && *final(proposal) is None),
            Err(e) => *final(config) == *old(config) && *final(proposal) == *old(proposal) && (match *old(proposal) {
                None => e == ContractError::NotFound,
                Some(p) => if sender@ != p.owner@ {
                    e == ContractError::Unauthorized
                } else {
                    e == ContractError::Expired && now > p.ttl
                },
            }),
        },
{
    let (p_owner, p_ttl) = match &*proposal {
        Some(p) => (p.owner.clone(), p.ttl),
        None => {
            return Err(ContractError::NotFound);
        },
    };
    if !sender.eq(&p_owner) {
        return Err(ContractError::Unauthorized);
    }
    if now > p_ttl {
        return Err(ContractError::Expired);
    }
    *proposal = None;
    config.owner = p_owner;
    Ok(())
}

/// The current time as the evaluator's clock source reports it.
pub fn query_timestamp(now: u64) -> (r: u64)
    ensures
        r == now,
{
    now
}

/// The current configuration, copied out for the caller.
pub fn query_config(config: &Config) -> (r: ConfigResponse)
    ensures
        r.owner == config.owner,
        r.token_addr == config.token_addr,
{
    ConfigResponse { owner: config.owner.clone(), token_addr: config.token_addr.clone() }
}

/// How much of one schedule has vested at time `now`: nothing before the
/// start point; the start amount plus a linearly interpolated share of
/// the remaining grant between the start and end points; the full end
/// amount from the end point on. A schedule without an end point is a
/// cliff releasing its start amount at once.
pub open spec fn vested_amount(now: u64, s: VestingSchedule) -> int {
    if now < s.start_point.time {
        0
    } else {
        match s.end_point {
            None => s.start_point.amount as int,
            Some(end) => {
                let capped: int = if now < end.time {
                    now as int
                } else {
                    end.time as int
                };
                let passed: int = capped - s.start_point.time;
                let period: int = end.time - s.start_point.time;
                if period == 0 {
                    s.start_point.amount as int
                } else {
                    s.start_point.amount + passed * (end.amount - s.start_point.amount) / period
                }
            },
        }
    }
}

/// The vested amounts of a list of schedules, summed.
pub open spec fn vested_total(now: u64, schedules: Seq<VestingSchedule>) -> int
    decreases schedules.len(),
{
    if schedules.len() == 0 {
        0
    } else {
        vested_total(now, schedules.drop_last()) + vested_amount(now, schedules.last())
    }
}

/// How much one schedule surrenders to a clawback at time `now`: nothing
/// before its start point, its full ceiling afterwards — clawback
/// reclaims the whole remaining entitlement, vested or not.
pub open spec fn clawback_amount(now: u64, s: VestingSchedule) -> int {
    if now < s.start_point.time {
        0
    } else {
        s.cap() as int
    }
}

/// The clawback amounts of a list of schedules, summed.
pub open spec fn clawback_total(now: u64, schedules: Seq<VestingSchedule>) -> int
    decreases schedules.len(),
{
    if schedules.len() == 0 {
        0
    } else {
        clawback_total(now, schedules.drop_last()) + clawback_amount(now, schedules.last())
    }
}

/// A valid schedule vests at least its start amount once started, never
/// more than its ceiling, and nothing before its start.
pub proof fn lemma_vested_amount_bounds(now: u64, s: VestingSchedule)
    requires
        s.is_valid(),
    ensures
        0 <= vested_amount(now, s) <= s.cap(),
        now >= s.start_point.time ==> vested_amount(now, s) >= s.start_point.amount,
        vested_amount(now, s) <= clawback_amount(now, s),
{
    if now >= s.start_point.time {
        match s.end_point {
            None => {},
            Some(end) => {
                let capped: int = if now < end.time {
                    now as int
                } else {
                    end.time as int
                };
                let passed: int = capped - s.start_point.time;
                let period: int = end.time - s.start_point.time;
                let diff: int = end.amount - s.start_point.amount;
                vstd::arithmetic::mul::lemma_mul_nonnegative(passed, diff);
                vstd::arithmetic::div_mod::lemma_div_pos_is_pos(passed * diff, period);
                vstd::arithmetic::mul::lemma_mul_inequality(passed, period, diff);
                vstd::arithmetic::div_mod::lemma_div_is_ordered(passed * diff, period * diff, period);
                vstd::arithmetic::div_mod::lemma_div_multiples_vanish(diff, period);
            },
        }
    }
}

/// Extending a schedule list by one entry adds that entry's vested amount.
pub proof fn lemma_vested_total_take_succ(now: u64, schedules: Seq<VestingSchedule>, i: int)
    requires
        0 <= i < schedules.len(),
    ensures
        vested_total(now, schedules.take(i + 1)) == vested_total(now, schedules.take(i))
            + vested_amount(now, schedules[i]),
{
    assert(schedules.take(i + 1).drop_last() =~= schedules.take(i));
    assert(schedules.take(i + 1).last() == schedules[i]);
}

/// Under valid schedules, the total over a prefix never exceeds the
/// total over the whole list.
pub proof fn lemma_vested_total_prefix_le(now: u64, schedules: Seq<VestingSchedule>, i: int)
    requires
        0 <= i <= schedules.len(),
        forall|j: int| 0 <= j < schedules.len() ==> (#[trigger] schedules[j]).is_valid(),
    ensures
        vested_total(now, schedules.take(i)) <= vested_total(now, schedules),
        vested_total(now, schedules.take(i)) >= 0,
    decreases schedules.len() - i,
{
    assert(forall|j: int|
        0 <= j < schedules.take(i).len() ==> (#[trigger] schedules.take(i)[j]).is_valid());
    lemma_vested_total_nonneg(now, schedules.take(i));
    if i == schedules.len() {
        assert(schedules.take(i) =~= schedules);
    } else {
        lemma_vested_total_take_succ(now, schedules, i);
        lemma_vested_amount_bounds(now, schedules[i]);
        lemma_vested_total_prefix_le(now, schedules, i + 1);
    }
}

/// The vested total of valid schedules is never negative.
pub proof fn lemma_vested_total_nonneg(now: u64, schedules: Seq<VestingSchedule>)
    requires
        forall|j: int| 0 <= j < schedules.len() ==> (#[trigger] schedules[j]).is_valid(),
    ensures
        vested_total(now, schedules) >= 0,
    decreases schedules.len(),
{
    if schedules.len() > 0 {
        lemma_vested_total_nonneg(now, schedules.drop_last());
        lemma_vested_amount_bounds(now, schedules.last());
    }
}

/// Relies on `cosmwasm_std::Uint128::checked_multiply_ratio`: the result
/// is `a * num / den`, multiplied without intermediate overflow and
/// floored; it fails exactly on a zero denominator or a quotient that
/// does not fit in the integer range.
#[verifier::external_body]
fn mul_ratio(a: u128, num: u128, den: u128) -> (r: Option<u128>)
    ensures
        r == (if den != 0 && a * num / (den as int) <= u128::MAX {
            Some((a * num / (den as int)) as u128)
        } else {
            None::<u128>
        }),
{
    match cosmwasm_std::Uint128::new(a).checked_multiply_ratio(num, den) {
        Ok(v) => Some(v.u128()),
        Err(_) => None,
    }
}

/// Sums the vested amount of every schedule at `current_time` and
/// subtracts what was already released. An overflowing sum or a released
/// amount above the vested total is a corrupted record and fails hard.
#[verifier::rlimit(50)]
pub fn compute_available_amount(current_time: u64, vesting_info: &VestingInfo) -> (r: Result<
    u128,
    ContractError,
>)
    requires
        vesting_info@.is_valid(),
    ensures
        ({
            let total = vested_total(current_time, vesting_info@.schedules);
            let released = vesting_info.released_amount;
            match r {
                Ok(v) => released <= total <= u128::MAX && v == total - released,
                Err(ContractError::Overflow) => total > u128::MAX,
                Err(ContractError::Underflow) => total <= u128::MAX && released > total,
                Err(_) => false,
            }
        }),
{
    let ghost all = vesting_info@.schedules;
    let mut available: u128 = 0;
    let n = vesting_info.schedules.len();
    let mut idx: usize = 0;
    while idx < n
        invariant
            idx <= n,
            n == vesting_info.schedules.len(),
            vesting_info@.is_valid(),
            all == vesting_info@.schedules,
            available == vested_total(current_time, all.take(idx as int)),
        decreases n - idx,
    {
        let sch = vesting_info.schedules[idx];
        proof {
            assert(sch.is_valid());
            lemma_vested_amount_bounds(current_time, sch);
            lemma_vested_total_take_succ(current_time, all, idx as int);
        }
        if sch.start_point.time <= current_time {
            match sch.end_point {
                None => {
                    match available.checked_add(sch.start_point.amount) {
                        Some(v) => {
                            available = v;
                        },
                        None => {
                            proof {
                                lemma_vested_total_prefix_le(current_time, all, idx as int + 1);
                            }
                            return Err(ContractError::Overflow);
                        },
                    }
                },
                Some(end) => {
                    let capped: u64 = if current_time < end.time {
                        current_time
                    } else {
                        end.time
                    };
                    let passed_time: u64 = capped - sch.start_point.time;
                    let time_period: u64 = end.time - sch.start_point.time;
                    let diff: u128 = end.amount - sch.start_point.amount;
                    let ghost step = vested_amount(current_time, sch);
                    let mut contribution: u128 = sch.start_point.amount;
                    if passed_time == 0 {
                        proof {
                            vstd::arithmetic::div_mod::lemma_div_of0(time_period as int);
                            vstd::arithmetic::mul::lemma_mul_by_zero_is_zero(diff as int);
                            assert((capped as int) - (sch.start_point.time as int) == 0);
                            assert(((capped as int) - (sch.start_point.time as int)) * (
                            diff as int) == 0);
                            assert(step == sch.start_point.amount as int);
                        }
                    } else {
                        proof {
                            vstd::arithmetic::mul::lemma_mul_nonnegative(
                                passed_time as int,
                                diff as int,
                            );
                            vstd::arithmetic::div_mod::lemma_div_pos_is_pos(
                                passed_time as int * diff as int,
                                time_period as int,
                            );
                            vstd::arithmetic::mul::lemma_mul_inequality(
                                passed_time as int,
                                time_period as int,
                                diff as int,
                            );
                            vstd::arithmetic::div_mod::lemma_div_is_ordered(
                                passed_time as int * diff as int,
                                time_period as int * diff as int,
                                time_period as int,
                            );
                            vstd::arithmetic::div_mod::lemma_div_multiples_vanish(
                                diff as int,
                                time_period as int,
                            );
                        }
                        let release_amount = mul_ratio(
                            passed_time as u128,
                            diff,
                            time_period as u128,
                        ).unwrap();
                        assert(release_amount == (passed_time as int) * (diff as int) / (
                        time_period as int));
                        assert(step == sch.start_point.amount + (passed_time as int) * (
                        diff as int) / (time_period as int));
                        contribution = contribution + release_amount;
                    }
                    assert(contribution == step);
                    match available.checked_add(contribution) {
                        Some(v) => {
                            available = v;
                        },
                        None => {
                            proof {
                                lemma_vested_total_prefix_le(current_time, all, idx as int + 1);
                            }
                            return Err(ContractError::Overflow);
                        },
                    }
                },
            }
        }
        idx += 1;
    }
    proof {
        assert(all.take(n as int) =~= all);
    }
    match available.checked_sub(vesting_info.released_amount) {
        Some(v) => Ok(v),
        None => Err(ContractError::Underflow),
    }
}

/// A valid schedule with an end point releases monotonically over time,
/// exactly its start amount at the start point, and exactly its end
/// amount from the end point on.
pub proof fn lemma_vested_linear(s: VestingSchedule, t1: u64, t2: u64)
    requires
        s.is_valid(),
        s.end_point is Some,
        t1 <= t2,
    ensures
        vested_amount(t1, s) <= vested_amount(t2, s),
        t1 == s.start_point.time ==> vested_amount(t1, s) == s.start_point.amount,
        t1 >= s.end_point->Some_0.time ==> vested_amount(t1, s) == s.end_point->Some_0.amount,
{
    let start = s.start_point;
    let end = s.end_point->Some_0;
    let period: int = end.time - start.time;
    let diff: int = end.amount - start.amount;
    if t1 < start.time {
        lemma_vested_amount_bounds(t2, s);
    } else {
        let capped1: int = if t1 < end.time {
            t1 as int
        } else {
            end.time as int
        };
        let capped2: int = if t2 < end.time {
            t2 as int
        } else {
            end.time as int
        };
        let passed1: int = capped1 - start.time;
        let passed2: int = capped2 - start.time;
        vstd::arithmetic::mul::lemma_mul_inequality(passed1, passed2, diff);
        vstd::arithmetic::div_mod::lemma_div_is_ordered(passed1 * diff, passed2 * diff, period);
    }
    if t1 == start.time {
        vstd::arithmetic::mul::lemma_mul_by_zero_is_zero(diff);
        vstd::arithmetic::div_mod::lemma_div_of0(period);
    }
    if t1 >= end.time {
        vstd::arithmetic::div_mod::lemma_div_multiples_vanish(diff, period);
    }
}

/// A cliff schedule is a step function of time: nothing before its start
/// point, the whole start amount at and after it.
pub proof fn lemma_vested_cliff(s: VestingSchedule, t: u64)
    requires
        s.end_point is None,
    ensures
        t < s.start_point.time ==> vested_amount(t, s) == 0,
        t >= s.start_point.time ==> vested_amount(t, s) == s.start_point.amount,
{
}

/// The available balance of a record never exceeds its vested total and
/// is never negative, as long as no more was released than ever vested.
pub proof fn lemma_available_bounds(now: u64, info: VestingInfoV)
    requires
        info.is_valid(),
        info.released_amount <= vested_total(now, info.schedules),
    ensures
        0 <= vested_total(now, info.schedules) - info.released_amount <= vested_total(
            now,
            info.schedules,
        ),
{
}

/// Extending a schedule list by one entry adds that entry's clawback amount.
pub proof fn lemma_clawback_total_take_succ(now: u64, schedules: Seq<VestingSchedule>, i: int)
    requires
        0 <= i < schedules.len(),
    ensures
        clawback_total(now, schedules.take(i + 1)) == clawback_total(now, schedules.take(i))
            + clawback_amount(now, schedules[i]),
{
    assert(schedules.take(i + 1).drop_last() =~= schedules.take(i));
    assert(schedules.take(i + 1).last() == schedules[i]);
}

/// The clawback total over a prefix never exceeds the total over the
/// whole list, and is never negative.
pub proof fn lemma_clawback_total_prefix_le(now: u64, schedules: Seq<VestingSchedule>, i: int)
    requires
        0 <= i <= schedules.len(),
    ensures
        clawback_total(now, schedules.take(i)) <= clawback_total(now, schedules),
        clawback_total(now, schedules.take(i)) >= 0,
    decreases schedules.len() - i,
{
    lemma_clawback_total_nonneg(now, schedules.take(i));
    if i == schedules.len() {
        assert(schedules.take(i) =~= schedules);
    } else {
        lemma_clawback_total_take_succ(now, schedules, i);
        lemma_clawback_total_prefix_le(now, schedules, i + 1);
    }
}

/// The clawback total is never negative.
pub proof fn lemma_clawback_total_nonneg(now: u64, schedules: Seq<VestingSchedule>)
    ensures
        clawback_total(now, schedules) >= 0,
    decreases schedules.len(),
{
    if schedules.len() > 0 {
        lemma_clawback_total_nonneg(now, schedules.drop_last());
    }
}

/// Sums, over every schedule that has started, the whole remaining
/// ceiling of the schedule — clawback reclaims unvested amounts too —
/// and subtracts what was already released.
pub fn compute_available_clawback_amount(current_time: u64, vesting_info: &VestingInfo) -> (r:
    Result<u128, ContractError>)
    ensures
        ({
            let total = clawback_total(current_time, vesting_info@.schedules);
            let released = vesting_info.released_amount;
            match r {
                Ok(v) => released <= total <= u128::MAX && v == total - released,
                Err(ContractError::Overflow) => total > u128::MAX,
                Err(ContractError::Underflow) => total <= u128::MAX && released > total,
                Err(_) => false,
            }
        }),
{
    let ghost all = vesting_info@.schedules;
    let mut available: u128 = 0;
    let n = vesting_info.schedules.len();
    let mut idx: usize = 0;
    while idx < n
        invariant
            idx <= n,
            n == vesting_info.schedules.len(),
            all == vesting_info@.schedules,
            available == clawback_total(current_time, all.take(idx as int)),
        decreases n - idx,
    {
        let sch = vesting_info.schedules[idx];
        proof {
            lemma_clawback_total_take_succ(current_time, all, idx as int);
        }
        if sch.start_point.time <= current_time {
            let ceiling = match sch.end_point {
                Some(end) => end.amount,
                None => sch.start_point.amount,
            };
            match available.checked_add(ceiling) {
                Some(v) => {
                    available = v;
                },
                None => {
                    proof {
                        lemma_clawback_total_prefix_le(current_time, all, idx as int + 1);
                    }
                    return Err(ContractError::Overflow);
                },
            }
        }
        idx += 1;
    }
    proof {
        assert(all.take(n as int) =~= all);
    }
    match available.checked_sub(vesting_info.released_amount) {
        Some(v) => Ok(v),
        None => Err(ContractError::Underflow),
    }
}

/// A stored record found in a well-formed ledger satisfies the schedule
/// invariant.
proof fn lemma_stored_info_valid(l: Ledger, a: Seq<char>)
    requires
        l.wf(),
        l.has_account(a),
    ensures
        l.spec_get(a) matches Some(v) && v.is_valid(),
{
}

/// Pays out the vested-and-unreleased balance of the caller's record.
/// With no requested amount the whole available balance is withdrawn,
/// leaving nothing available immediately afterwards; a zero payout
/// succeeds without touching the ledger or the settlement service.
pub fn claim(
    ledger: &mut Ledger,
    now: u64,
    sender: &String,
    recipient: Option<String>,
    amount: Option<u128>,
) -> (r: Result<Option<TransferIntent>, ContractError>)
    requires
        old(ledger).wf(),
    ensures
        final(ledger).wf(),
        match r {
            Ok(intent) => old(ledger).has_account(sender@) && ({
                let infov = old(ledger).spec_get(sender@)->Some_0;
                let total = vested_total(now, infov.schedules);
                let avail = total - infov.released_amount;
                let claimed: int = match amount {
                    Some(a) => a as int,
                    None => avail,
                };
                &&& infov.released_amount <= total <= u128::MAX
                &&& (amount matches Some(a) ==> a <= avail)
                &&& claimed == 0 ==> (intent is None && *final(ledger) == *old(ledger))
                &&& claimed != 0 ==> (intent matches Some(t) && t.amount == claimed
                    && t.recipient@ == (match recipient {
                    Some(rcp) => rcp@,
                    None => sender@,
                }) && final(ledger).spec_get(sender@) == Some(
                    VestingInfoV {
                        schedules: infov.schedules,
                        released_amount: (infov.released_amount + claimed) as u128,
                        clawbackable: infov.clawbackable,
                    },
                ) && (forall|b: Seq<char>|
                    b != sender@ ==> final(ledger).spec_get(b) == old(ledger).spec_get(b)))
                &&& (amount is None ==> (final(ledger).spec_get(sender@) matches Some(v)
                    && v.released_amount == total))
            }),
            Err(e) => *final(ledger) == *old(ledger) && (if !old(ledger).has_account(sender@) {
                e == ContractError::NotFound
            } else {
                let infov = old(ledger).spec_get(sender@)->Some_0;
                let total = vested_total(now, infov.schedules);
                if total > u128::MAX {
                    e == ContractError::Overflow
                } else if infov.released_amount > total {
                    e == ContractError::Underflow
                } else {
                    e == ContractError::AmountIsNotAvailable && (amount matches Some(a) && a
                        > total - infov.released_amount)
                }
            }),
        },
{
    proof {
        if old(ledger).has_account(sender@) {
            lemma_stored_info_valid(*old(ledger), sender@);
        }
    }
    let stored = match ledger.may_load(sender) {
        Some(info) => info.clone(),
        None => {
            return Err(ContractError::NotFound);
        },
    };
    let available = match compute_available_amount(now, &stored) {
        Ok(v) => v,
        Err(e) => {
            return Err(e);
        },
    };
    let claim_amount = match amount {
        Some(a) => {
            if a > available {
                return Err(ContractError::AmountIsNotAvailable);
            }
            a
        },
        None => available,
    };
    if claim_amount == 0 {
        return Ok(None);
    }
    let new_released = stored.released_amount + claim_amount;
    let new_info = VestingInfo {
        schedules: stored.schedules,
        released_amount: new_released,
        clawbackable: stored.clawbackable,
    };
    ledger.save(sender, new_info);
    let rcpt = match recipient {
        Some(rcp) => rcp,
        None => sender.clone(),
    };
    Ok(Some(TransferIntent { recipient: rcpt, amount: claim_amount }))
}

/// Revokes the remaining entitlement of `recipient`'s record and directs
/// it to the controller. Only the controller may claw back, and only
/// from records not explicitly marked unrevocable — an unset flag
/// permits revocation. The reclaimed amount counts as released, so the
/// target cannot claim it later.
pub fn clawback(
    config: &Config,
    ledger: &mut Ledger,
    now: u64,
    sender: &String,
    recipient: &String,
) -> (r: Result<Option<TransferIntent>, ContractError>)
    requires
        old(ledger).wf(),
    ensures
        final(ledger).wf(),
        match r {
            Ok(intent) => sender@ == config.owner@ && old(ledger).has_account(recipient@) && ({
                let infov = old(ledger).spec_get(recipient@)->Some_0;
                let total = clawback_total(now, infov.schedules);
                let claw = total - infov.released_amount;
                &&& infov.clawbackable != Some(false)
                &&& infov.released_amount <= total <= u128::MAX
                &&& claw == 0 ==> (intent is None && *final(ledger) == *old(ledger))
                &&& claw != 0 ==> (intent matches Some(t) && t.amount == claw && t.recipient@
                    == sender@ && final(ledger).spec_get(recipient@) == Some(
                    VestingInfoV {
                        schedules: infov.schedules,
                        released_amount: total as u128,
                        clawbackable: infov.clawbackable,
                    },
                ) && (forall|b: Seq<char>|
                    b != recipient@ ==> final(ledger).spec_get(b) == old(ledger).spec_get(b)))
            }),
            Err(e) => *final(ledger) == *old(ledger) && (if sender@ != config.owner@ {
                e == ContractError::Unauthorized
            } else if !old(ledger).has_account(recipient@) {
                e == ContractError::NotFound
            } else {
                let infov = old(ledger).spec_get(recipient@)->Some_0;
                let total = clawback_total(now, infov.schedules);
                if infov.clawbackable == Some(false) {
                    e == ContractError::Unauthorized
                } else if total > u128::MAX {
                    e == ContractError::Overflow
                } else {
                    e == ContractError::Underflow && infov.released_amount > total
                }
            }),
        },
{
    if !sender.eq(&config.owner) {
        return Err(ContractError::Unauthorized);
    }
    proof {
        if old(ledger).has_account(recipient@) {
            lemma_stored_info_valid(*old(ledger), recipient@);
        }
    }
    let stored = match ledger.may_load(recipient) {
        Some(info) => info.clone(),
        None => {
            return Err(ContractError::NotFound);
        },
    };
    match stored.clawbackable {
        Some(flag) => {
            if !flag {
                return Err(ContractError::Unauthorized);
            }
        },
        None => {},
    }
    let claw_amount = match compute_available_clawback_amount(now, &stored) {
        Ok(v) => v,
        Err(e) => {
            return Err(e);
        },
    };
    if claw_amount == 0 {
        return Ok(None);
    }
    let new_released = stored.released_amount + claw_amount;
    let new_info = VestingInfo {
        schedules: stored.schedules,
        released_amount: new_released,
        clawbackable: stored.clawbackable,
    };
    ledger.save(recipient, new_info);
    Ok(Some(TransferIntent { recipient: sender.clone(), amount: claw_amount }))
}

/// All schedules of a list satisfy the schedule invariant.
pub open spec fn schedules_valid(schedules: Seq<VestingSchedule>) -> bool {
    forall|i: int| 0 <= i < schedules.len() ==> (#[trigger] schedules[i]).is_valid()
}

/// The sum of the ceilings of a list of schedules: what a deposit must
/// fund for them.
pub open spec fn schedules_cap_total(schedules: Seq<VestingSchedule>) -> int
    decreases schedules.len(),
{
    if schedules.len() == 0 {
        0
    } else {
        schedules_cap_total(schedules.drop_last()) + schedules.last().cap()
    }
}

/// Extending a schedule list by one entry adds that entry's ceiling.
pub proof fn lemma_cap_total_take_succ(schedules: Seq<VestingSchedule>, i: int)
    requires
        0 <= i < schedules.len(),
    ensures
        schedules_cap_total(schedules.take(i + 1)) == schedules_cap_total(schedules.take(i))
            + schedules[i].cap(),
{
    assert(schedules.take(i + 1).drop_last() =~= schedules.take(i));
    assert(schedules.take(i + 1).last() == schedules[i]);
}

/// The ceiling sum over a prefix never exceeds the sum over the whole
/// list, and is never negative.
pub proof fn lemma_cap_total_prefix_le(schedules: Seq<VestingSchedule>, i: int)
    requires
        0 <= i <= schedules.len(),
    ensures
        schedules_cap_total(schedules.take(i)) <= schedules_cap_total(schedules),
        schedules_cap_total(schedules.take(i)) >= 0,
    decreases schedules.len() - i,
{
    lemma_cap_total_nonneg(schedules.take(i));
    if i == schedules.len() {
        assert(schedules.take(i) =~= schedules);
    } else {
        lemma_cap_total_take_succ(schedules, i);
        lemma_cap_total_prefix_le(schedules, i + 1);
    }
}

/// The ceiling sum is never negative.
pub proof fn lemma_cap_total_nonneg(schedules: Seq<VestingSchedule>)
    ensures
        schedules_cap_total(schedules) >= 0,
    decreases schedules.len(),
{
    if schedules.len() > 0 {
        lemma_cap_total_nonneg(schedules.drop_last());
    }
}

/// The ceiling sums of a batch of deposit entries, summed.
pub open spec fn accounts_cap_total(accounts: Seq<VestingAccount>) -> int
    decreases accounts.len(),
{
    if accounts.len() == 0 {
        0
    } else {
        accounts_cap_total(accounts.drop_last()) + schedules_cap_total(
            accounts.last().schedules@,
        )
    }
}

/// Extending a batch by one entry adds that entry's ceiling sum.
pub proof fn lemma_accounts_cap_total_take_succ(accounts: Seq<VestingAccount>, i: int)
    requires
        0 <= i < accounts.len(),
    ensures
        accounts_cap_total(accounts.take(i + 1)) == accounts_cap_total(accounts.take(i))
            + schedules_cap_total(accounts[i].schedules@),
{
    assert(accounts.take(i + 1).drop_last() =~= accounts.take(i));
    assert(accounts.take(i + 1).last() == accounts[i]);
}

/// The first reason a batch is rejected while it is walked in order with
/// `running` already deposited: a non-canonical address, an invalid
/// schedule, or a ceiling sum that leaves the integer range.
pub open spec fn register_error(accounts: Seq<VestingAccount>, running: int) -> Option<
    ContractError,
>
    decreases accounts.len(),
{
    if accounts.len() == 0 {
        None
    } else {
        let a = accounts[0];
        if !is_canonical(a.address@) {
            Some(ContractError::InvalidInput)
        } else if !schedules_valid(a.schedules@) {
            Some(ContractError::VestingScheduleError(a.address))
        } else if running + schedules_cap_total(a.schedules@) > u128::MAX {
            Some(ContractError::Overflow)
        } else {
            register_error(accounts.drop_first(), running + schedules_cap_total(a.schedules@))
        }
    }
}

/// How a batch registration ends: the first per-entry error, or a
/// mismatch between the declared ceilings and the deposited amount, or
/// success.
pub open spec fn register_outcome(accounts: Seq<VestingAccount>, deposited: u128) -> Option<
    ContractError,
> {
    match register_error(accounts, 0) {
        Some(e) => Some(e),
        None => if accounts_cap_total(accounts) == deposited {
            None
        } else {
            Some(ContractError::VestingScheduleAmountError)
        },
    }
}

/// The record a deposit entry leaves for its address: new schedules are
/// appended after any existing ones, the released counter survives a
/// merge, a fresh account starts at zero, and the deposit's revocability
/// flag takes effect.
pub open spec fn merged_info(prev: Option<VestingInfoV>, a: VestingAccount) -> VestingInfoV {
    match prev {
        Some(p) => VestingInfoV {
            schedules: p.schedules + a.schedules@,
            released_amount: p.released_amount,
            clawbackable: a.clawbackable,
        },
        None => VestingInfoV {
            schedules: a.schedules@,
            released_amount: 0,
            clawbackable: a.clawbackable,
        },
    }
}

/// What a batch leaves under key `b`: every entry addressed to `b`,
/// applied in batch order to what was there before.
pub open spec fn fold_key(
    prev: Option<VestingInfoV>,
    accounts: Seq<VestingAccount>,
    b: Seq<char>,
) -> Option<VestingInfoV>
    decreases accounts.len(),
{
    if accounts.len() == 0 {
        prev
    } else {
        let next = if accounts[0].address@ == b {
            Some(merged_info(prev, accounts[0]))
        } else {
            prev
        };
        fold_key(next, accounts.drop_first(), b)
    }
}

/// Appending one entry to a batch applies it after the rest.
pub proof fn lemma_fold_key_push(
    prev: Option<VestingInfoV>,
    t: Seq<VestingAccount>,
    x: VestingAccount,
    b: Seq<char>,
)
    ensures
        fold_key(prev, t.push(x), b) == (if x.address@ == b {
            Some(merged_info(fold_key(prev, t, b), x))
        } else {
            fold_key(prev, t, b)
        }),
    decreases t.len(),
{
    if t.len() == 0 {
        assert(t.push(x)[0] == x);
        assert(t.push(x).drop_first() =~= Seq::<VestingAccount>::empty());
        let next0 = if x.address@ == b {
            Some(merged_info(prev, x))
        } else {
            prev
        };
        assert(fold_key(next0, t.push(x).drop_first(), b) == next0);
        assert(fold_key(prev, t.push(x), b) == next0);
    } else {
        assert(t.push(x)[0] == t[0]);
        assert(t.push(x).drop_first() =~= t.drop_first().push(x));
        let next = if t[0].address@ == b {
            Some(merged_info(prev, t[0]))
        } else {
            prev
        };
        assert(fold_key(prev, t, b) == fold_key(next, t.drop_first(), b));
        assert(fold_key(prev, t.push(x), b) == fold_key(next, t.drop_first().push(x), b));
        lemma_fold_key_push(next, t.drop_first(), x, b);
    }
}

/// Rejects any schedule of the list that breaks the start/end invariant,
/// naming the offending address.
pub fn assert_vesting_schedules(addr: &String, vesting_schedules: &Vec<VestingSchedule>) -> (r:
    Result<(), ContractError>)
    ensures
        match r {
            Ok(_) => schedules_valid(vesting_schedules@),
            Err(e) => !schedules_valid(vesting_schedules@) && e
                == ContractError::VestingScheduleError(*addr),
        },
{
    let n = vesting_schedules.len();
    let mut i: usize = 0;
    while i < n
        invariant
            i <= n,
            n == vesting_schedules@.len(),
            forall|j: int| 0 <= j < i ==> (#[trigger] vesting_schedules@[j]).is_valid(),
        decreases n - i,
    {
        let sch = vesting_schedules[i];
        let ok = match sch.end_point {
            Some(end) => sch.start_point.time < end.time && sch.start_point.amount < end.amount,
            None => true,
        };
        if !ok {
            return Err(ContractError::VestingScheduleError(addr.clone()));
        }
        i += 1;
    }
    Ok(())
}

/// Registers a whole batch of deposits. Every entry is validated and
/// the declared ceilings are summed before anything is written, so a
/// rejected batch — bad address, bad schedule, ceiling overflow, or a
/// sum that differs from the deposited amount — leaves the ledger
/// exactly as it was.
#[verifier::loop_isolation(false)]
pub fn register_vesting_accounts(
    ledger: &mut Ledger,
    vesting_accounts: Vec<VestingAccount>,
    cw20_amount: u128,
) -> (r: Result<(), ContractError>)
    requires
        old(ledger).wf(),
    ensures
        final(ledger).wf(),
        match r {
            Ok(_) => register_outcome(vesting_accounts@, cw20_amount) is None && (forall|
                b: Seq<char>,
            |
                final(ledger).spec_get(b) == #[trigger] fold_key(
                    old(ledger).spec_get(b),
                    vesting_accounts@,
                    b,
                )),
            Err(e) => register_outcome(vesting_accounts@, cw20_amount) == Some(e)
                && *final(ledger) == *old(ledger),
        },
{
    let ghost accs = vesting_accounts@;
    proof {
        assert(accs.skip(0) =~= accs);
        assert(accs.take(0) =~= Seq::<VestingAccount>::empty());
    }
    let n = vesting_accounts.len();
    let mut to_deposit: u128 = 0;
    let mut i: usize = 0;
    while i < n
        invariant
            i <= n,
            n == accs.len(),
            accs == vesting_accounts@,
            register_error(accs, 0) == register_error(accs.skip(i as int), to_deposit as int),
            to_deposit as int == accounts_cap_total(accs.take(i as int)),
            forall|k: int| 0 <= k < i ==> schedules_valid((#[trigger] accs[k]).schedules@),
        decreases n - i,
    {
        let acct = &vesting_accounts[i];
        proof {
            assert(accs.skip(i as int)[0] == accs[i as int]);
            assert(accs.skip(i as int).drop_first() =~= accs.skip(i as int + 1));
            lemma_accounts_cap_total_take_succ(accs, i as int);
        }
        match addr_validate_to_lower(&acct.address) {
            Ok(_) => {},
            Err(e) => {
                return Err(e);
            },
        }
        match assert_vesting_schedules(&acct.address, &acct.schedules) {
            Ok(_) => {},
            Err(e) => {
                return Err(e);
            },
        }
        let ghost dep0 = to_deposit;
        let m = acct.schedules.len();
        let mut j: usize = 0;
        while j < m
            invariant
                j <= m,
                i < n == accs.len(),
                accs == vesting_accounts@,
                m == accs[i as int].schedules@.len(),
                acct.schedules@ == accs[i as int].schedules@,
                to_deposit as int == dep0 + schedules_cap_total(
                    accs[i as int].schedules@.take(j as int),
                ),
            decreases m - j,
        {
            proof {
                lemma_cap_total_take_succ(accs[i as int].schedules@, j as int);
            }
            let sch = acct.schedules[j];
            let cap = match sch.end_point {
                Some(end) => end.amount,
                None => sch.start_point.amount,
            };
            match to_deposit.checked_add(cap) {
                Some(v) => {
                    to_deposit = v;
                },
                None => {
                    proof {
                        lemma_cap_total_prefix_le(accs[i as int].schedules@, j as int + 1);
                    }
                    return Err(ContractError::Overflow);
                },
            }
            j += 1;
        }
        proof {
            assert(accs[i as int].schedules@.take(m as int) =~= accs[i as int].schedules@);
        }
        i += 1;
    }
    proof {
        assert(accs.skip(n as int) =~= Seq::<VestingAccount>::empty());
        assert(accs.take(n as int) =~= accs);
    }
    if to_deposit != cw20_amount {
        return Err(ContractError::VestingScheduleAmountError);
    }
    let ghost start_ledger = *ledger;
    proof {
        assert(accs.take(0) =~= Seq::<VestingAccount>::empty());
    }
    let mut i2: usize = 0;
    while i2 < n
        invariant
            i2 <= n,
            n == accs.len(),
            accs == vesting_accounts@,
            ledger.wf(),
            forall|k: int| 0 <= k < n ==> schedules_valid((#[trigger] accs[k]).schedules@),
            forall|b: Seq<char>|
                ledger.spec_get(b) == #[trigger] fold_key(
                    start_ledger.spec_get(b),
                    accs.take(i2 as int),
                    b,
                ),
        decreases n - i2,
    {
        let acct = &vesting_accounts[i2];
        let ghost cur = *ledger;
        let ghost addrv = acct.address@;
        let ghost prev = cur.spec_get(addrv);
        proof {
            if cur.has_account(addrv) {
                lemma_stored_info_valid(cur, addrv);
            }
        }
        let existing: Option<VestingInfo> = match ledger.may_load(&acct.address) {
            Some(info) => Some(info.clone()),
            None => None,
        };
        let (mut schedules, released): (Vec<VestingSchedule>, u128) = match existing {
            Some(c) => (c.schedules, c.released_amount),
            None => (Vec::new(), 0),
        };
        let ghost base = schedules@;
        proof {
            match prev {
                Some(p) => {
                    assert(base == p.schedules && released == p.released_amount);
                },
                None => {
                    assert(base.len() == 0);
                },
            }
        }
        let m = acct.schedules.len();
        let mut j: usize = 0;
        while j < m
            invariant
                j <= m,
                i2 < n == accs.len(),
                accs == vesting_accounts@,
                m == accs[i2 as int].schedules@.len(),
                acct.schedules@ == accs[i2 as int].schedules@,
                acct.clawbackable == accs[i2 as int].clawbackable,
                schedules@ == base + accs[i2 as int].schedules@.take(j as int),
            decreases m - j,
        {
            schedules.push(acct.schedules[j]);
            proof {
                assert(accs[i2 as int].schedules@.take(j as int + 1) =~= accs[
                i2 as int].schedules@.take(j as int).push(accs[i2 as int].schedules@[j as int]));
                assert(base + accs[i2 as int].schedules@.take(j as int + 1) =~= (base + accs[
                i2 as int].schedules@.take(j as int)).push(
                    accs[i2 as int].schedules@[j as int],
                ));
            }
            j += 1;
        }
        proof {
            assert(accs[i2 as int].schedules@.take(m as int) =~= accs[i2 as int].schedules@);
        }
        let new_info = VestingInfo {
            schedules,
            released_amount: released,
            clawbackable: acct.clawbackable,
        };
        proof {
            assert(schedules_valid(accs[i2 as int].schedules@));
            assert forall|q: int|
                0 <= q < new_info@.schedules.len() implies (#[trigger] new_info@.schedules[q]).is_valid() by {
                if q < base.len() {
                    assert(new_info@.schedules[q] == base[q]);
                } else {
                    assert(new_info@.schedules[q] == accs[i2 as int].schedules@[q - base.len()]);
                }
            }
            assert(new_info@.is_valid());
            assert(new_info@ == merged_info(prev, accs[i2 as int]));
        }
        ledger.save(&acct.address, new_info);
        proof {
            assert(accs.take(i2 as int + 1) =~= accs.take(i2 as int).push(accs[i2 as int]));
            assert forall|b: Seq<char>|
                ledger.spec_get(b) == #[trigger] fold_key(
                    start_ledger.spec_get(b),
                    accs.take(i2 as int + 1),
                    b,
                ) by {
                lemma_fold_key_push(
                    start_ledger.spec_get(b),
                    accs.take(i2 as int),
                    accs[i2 as int],
                    b,
                );
            }
        }
        i2 += 1;
    }
    proof {
        assert(accs.take(n as int) =~= accs);
    }
    Ok(())
}

/// Handles a token-receive notification: only a deposit sent by the
/// current owner through the configured token service is accepted, and
/// its payload registers the batch it carries.
pub fn receive_cw20(
    config: &Config,
    ledger: &mut Ledger,
    token_contract: &String,
    cw20_sender: &String,
    cw20_amount: u128,
    msg: Cw20HookMsg,
) -> (r: Result<(), ContractError>)
    requires
        old(ledger).wf(),
    ensures
        final(ledger).wf(),
        ({
            let accs = msg->RegisterVestingAccounts_vesting_accounts;
            if cw20_sender@ != config.owner@ || token_contract@ != config.token_addr@ {
                r == Err::<(), ContractError>(ContractError::Unauthorized) && *final(ledger)
                    == *old(ledger)
            } else {
                match r {
                    Ok(_) => register_outcome(accs@, cw20_amount) is None && (forall|
                        b: Seq<char>,
                    |
                        final(ledger).spec_get(b) == #[trigger] fold_key(
                            old(ledger).spec_get(b),
                            accs@,
                            b,
                        )),
                    Err(e) => register_outcome(accs@, cw20_amount) == Some(e)
                        && *final(ledger) == *old(ledger),
                }
            }
        }),
{
    if !cw20_sender.eq(&config.owner) || !token_contract.eq(&config.token_addr) {
        return Err(ContractError::Unauthorized);
    }
    match msg {
        Cw20HookMsg::RegisterVestingAccounts { vesting_accounts } => register_vesting_accounts(
            ledger,
            vesting_accounts,
            cw20_amount,
        ),
    }
}

/// One account's record, fetched for a caller: the address must be
/// canonical and the account must exist.
pub fn query_vesting_account(ledger: &Ledger, address: String) -> (r: Result<
    VestingAccountResponse,
    ContractError,
>)
    requires
        ledger.sorted(),
    ensures
        match r {
            Ok(resp) => is_canonical(address@) && resp.address@ == address@
                && ledger.spec_get(address@) == Some(resp.info@),
            Err(e) => if !is_canonical(address@) {
                e == ContractError::InvalidInput
            } else {
                e == ContractError::NotFound && !ledger.has_account(address@)
            },
        },
{
    let address = match addr_validate_to_lower(&address) {
        Ok(v) => v,
        Err(e) => {
            return Err(e);
        },
    };
    let info = match ledger.may_load(&address) {
        Some(info) => info.clone(),
        None => {
            return Err(ContractError::NotFound);
        },
    };
    Ok(VestingAccountResponse { address, info })
}

/// A page of the account listing, as the read-only query surface
/// returns it. The cursor must be canonical when given.
pub fn query_vesting_accounts(
    ledger: &Ledger,
    start_after: Option<String>,
    limit: Option<u32>,
    order_by: Option<OrderBy>,
) -> (r: Result<VestingAccountsResponse, ContractError>)
    requires
        ledger.sorted(),
    ensures
        match r {
            Ok(resp) => (start_after matches Some(s) ==> is_canonical(s@)) && (exists|
                page: Seq<(String, VestingInfo)>,
            |
                #![trigger page.len()]
                {
                    let c = crate::state::opt_view(start_after);
                    let lim = crate::state::limit_eff(limit);
                    &&& (match order_by {
                        Some(OrderBy::Asc) => exists|lo: int|
                            #[trigger] crate::state::asc_lower_bound(*ledger, c, lo)
                                && crate::state::matches_asc_page(*ledger, page, lo, lim),
                        _ => exists|hi: int|
                            #[trigger] crate::state::desc_upper_bound(*ledger, c, hi)
                                && crate::state::matches_desc_page(*ledger, page, hi, lim),
                    })
                    &&& resp.vesting_accounts@.len() == page.len()
                    &&& (forall|m: int|
                        0 <= m < page.len() ==> (#[trigger] resp.vesting_accounts@[m]).address
                            == page[m].0 && resp.vesting_accounts@[m].info@ == page[m].1@)
                }),
            Err(e) => e == ContractError::InvalidInput && (start_after matches Some(s)
                && !is_canonical(s@)),
        },
{
    let start_after = match crate::util::addr_opt_validate(&start_after) {
        Ok(v) => v,
        Err(e) => {
            return Err(e);
        },
    };
    let infos = crate::state::read_vesting_infos(ledger, &start_after, limit, order_by);
    let ghost page = infos@;
    let mut vesting_accounts: Vec<VestingAccountResponse> = Vec::new();
    let k = infos.len();
    let mut m: usize = 0;
    while m < k
        invariant
            m <= k,
            k == page.len(),
            infos@ == page,
            vesting_accounts@.len() == m,
            forall|q: int|
                0 <= q < m ==> (#[trigger] vesting_accounts@[q]).address == page[q].0
                    && vesting_accounts@[q].info@ == page[q].1@,
        decreases k - m,
    {
        let e = &infos[m];
        vesting_accounts.push(VestingAccountResponse { address: e.0.clone(), info: e.1.clone() });
        m += 1;
    }
    Ok(VestingAccountsResponse { vesting_accounts })
}

/// The balance an account could claim right now.
pub fn query_vesting_available_amount(ledger: &Ledger, now: u64, address: String) -> (r: Result<
    u128,
    ContractError,
>)
    requires
        ledger.wf(),
    ensures
        match r {
            Ok(v) => is_canonical(address@) && (ledger.spec_get(address@) matches Some(infov)
                && ({
                let total = vested_total(now, infov.schedules);
                infov.released_amount <= total <= u128::MAX && v == total
                    - infov.released_amount
            })),
            Err(e) => if !is_canonical(address@) {
                e == ContractError::InvalidInput
            } else if !ledger.has_account(address@) {
                e == ContractError::NotFound
            } else {
                let infov = ledger.spec_get(address@)->Some_0;
                let total = vested_total(now, infov.schedules);
                if total > u128::MAX {
                    e == ContractError::Overflow
                } else {
                    e == ContractError::Underflow && infov.released_amount > total
                }
            },
        },
{
    let address = match addr_validate_to_lower(&address) {
        Ok(v) => v,
        Err(e) => {
            return Err(e);
        },
    };
    proof {
        if ledger.has_account(address@) {
            lemma_stored_info_valid(*ledger, address@);
        }
    }
    let info = match ledger.may_load(&address) {
        Some(info) => info.clone(),
        None => {
            return Err(ContractError::NotFound);
        },
    };
    compute_available_amount(now, &info)
}

} // verus!
