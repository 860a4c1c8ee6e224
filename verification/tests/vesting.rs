use clawbackable_vesting::contract::{
    claim, claim_ownership, clawback, compute_available_amount,
    compute_available_clawback_amount, drop_ownership_proposal, instantiate, propose_new_owner,
    query_config, query_timestamp, query_vesting_account, query_vesting_accounts,
    query_vesting_available_amount, receive_cw20, register_vesting_accounts,
};
use clawbackable_vesting::error::ContractError;
use clawbackable_vesting::msg::{
    Cw20HookMsg, InstantiateMsg, OrderBy, VestingAccount, VestingInfo, VestingSchedule,
    VestingSchedulePoint,
};
use clawbackable_vesting::state::{read_vesting_infos, Ledger};

fn point(time: u64, amount: u128) -> VestingSchedulePoint {
    VestingSchedulePoint { time, amount }
}

fn linear(t0: u64, a0: u128, t1: u64, a1: u128) -> VestingSchedule {
    VestingSchedule { start_point: point(t0, a0), end_point: Some(point(t1, a1)) }
}

fn cliff(t0: u64, a0: u128) -> VestingSchedule {
    VestingSchedule { start_point: point(t0, a0), end_point: None }
}

fn info(schedules: Vec<VestingSchedule>, released: u128, clawbackable: Option<bool>) -> VestingInfo {
    VestingInfo { schedules, released_amount: released, clawbackable }
}

fn account(addr: &str, schedules: Vec<VestingSchedule>, clawbackable: Option<bool>) -> VestingAccount {
    VestingAccount { address: addr.to_string(), schedules, clawbackable }
}

#[test]
fn proper_initialization() {
    let msg = InstantiateMsg { owner: "owner".to_string(), token_addr: "vested_token".to_string() };
    let config = instantiate(&msg).unwrap();
    let resp = query_config(&config);
    assert_eq!(resp.owner, "owner".to_string());
    assert_eq!(resp.token_addr, "vested_token".to_string());
}

#[test]
fn read_vesting_infos_as_expected() {
    let mut ledger = Ledger::new();

    let vi_mock = info(vec![], 0, None);

    for i in 1..5 {
        let key = format!("address{}", i);
        ledger.save(&key, vi_mock.clone());
    }

    let res = read_vesting_infos(
        &ledger,
        &Some("address2".to_string()),
        None,
        Some(OrderBy::Asc),
    );
    assert_eq!(
        res,
        vec![
            ("address3".to_string(), vi_mock.clone()),
            ("address4".to_string(), vi_mock.clone()),
        ]
    );

    let res = read_vesting_infos(
        &ledger,
        &Some("address2".to_string()),
        Some(1),
        Some(OrderBy::Asc),
    );
    assert_eq!(res, vec![("address3".to_string(), vi_mock.clone())]);

    let res = read_vesting_infos(
        &ledger,
        &Some("address3".to_string()),
        None,
        Some(OrderBy::Desc),
    );
    assert_eq!(
        res,
        vec![
            ("address2".to_string(), vi_mock.clone()),
            ("address1".to_string(), vi_mock.clone()),
        ]
    );

    let res = read_vesting_infos(
        &ledger,
        &Some("address3".to_string()),
        Some(1),
        Some(OrderBy::Desc),
    );
    assert_eq!(res, vec![("address2".to_string(), vi_mock.clone())]);
}

#[test]
fn linear_schedule_interpolates_and_caps() {
    // The worked example: {start: (1000, 0), end: (2000, 1000)}.
    let vi = info(vec![linear(1000, 0, 2000, 1000)], 0, None);
    assert_eq!(compute_available_amount(999, &vi), Ok(0));
    assert_eq!(compute_available_amount(1000, &vi), Ok(0));
    assert_eq!(compute_available_amount(1500, &vi), Ok(500));
    assert_eq!(compute_available_amount(2000, &vi), Ok(1000));
    assert_eq!(compute_available_amount(2500, &vi), Ok(1000));

    let with_released = info(vec![linear(1000, 0, 2000, 1000)], 200, None);
    assert_eq!(compute_available_amount(1500, &with_released), Ok(300));
}

#[test]
fn linear_schedule_with_nonzero_start_amount() {
    // 100 unlocked at start, growing linearly to 500 at the end.
    let vi = info(vec![linear(1000, 100, 3000, 500)], 0, None);
    assert_eq!(compute_available_amount(1000, &vi), Ok(100));
    assert_eq!(compute_available_amount(2000, &vi), Ok(300));
    assert_eq!(compute_available_amount(3000, &vi), Ok(500));
}

#[test]
fn cliff_schedule_is_a_step() {
    let vi = info(vec![cliff(1000, 500)], 0, None);
    assert_eq!(compute_available_amount(999, &vi), Ok(0));
    assert_eq!(compute_available_amount(1000, &vi), Ok(500));
    assert_eq!(compute_available_amount(100000, &vi), Ok(500));
}

#[test]
fn multiple_schedules_sum() {
    let vi = info(vec![cliff(1000, 500), linear(1000, 0, 2000, 1000)], 0, None);
    assert_eq!(compute_available_amount(1500, &vi), Ok(1000));
    assert_eq!(compute_available_amount(2500, &vi), Ok(1500));
}

#[test]
fn available_underflow_is_an_error() {
    // More released than ever vested: a corrupted record must fail hard.
    let vi = info(vec![linear(1000, 0, 2000, 1000)], 600, None);
    assert_eq!(compute_available_amount(1500, &vi), Err(ContractError::Underflow));
}

#[test]
fn available_overflow_is_an_error() {
    let vi = info(vec![cliff(0, u128::MAX), cliff(0, 1)], 0, None);
    assert_eq!(compute_available_amount(5, &vi), Err(ContractError::Overflow));
}

#[test]
fn clawback_amount_counts_unvested_remainder() {
    let vi = info(vec![linear(1000, 0, 2000, 1000)], 200, None);
    // Half vested at 1500, but clawback reclaims the whole ceiling less
    // what was already paid out.
    assert_eq!(compute_available_clawback_amount(1500, &vi), Ok(800));
    // Before the start the schedule contributes nothing.
    let fresh = info(vec![linear(1000, 0, 2000, 1000)], 0, None);
    assert_eq!(compute_available_clawback_amount(999, &fresh), Ok(0));
}

#[test]
fn register_creates_and_merges_accounts() {
    let mut ledger = Ledger::new();
    let first = vec![account("addr1234", vec![linear(1000, 0, 2000, 1000)], None)];
    register_vesting_accounts(&mut ledger, first, 1000).unwrap();

    let resp = query_vesting_account(&ledger, "addr1234".to_string()).unwrap();
    assert_eq!(resp.address, "addr1234".to_string());
    assert_eq!(resp.info.schedules, vec![linear(1000, 0, 2000, 1000)]);
    assert_eq!(resp.info.released_amount, 0);

    // Withdraw something so the released counter is nonzero.
    claim(&mut ledger, 1500, &"addr1234".to_string(), None, Some(200)).unwrap();

    // A second deposit appends its schedules after the existing ones and
    // keeps the released counter.
    let second = vec![account("addr1234", vec![cliff(3000, 400)], Some(true))];
    register_vesting_accounts(&mut ledger, second, 400).unwrap();

    let resp = query_vesting_account(&ledger, "addr1234".to_string()).unwrap();
    assert_eq!(
        resp.info.schedules,
        vec![linear(1000, 0, 2000, 1000), cliff(3000, 400)]
    );
    assert_eq!(resp.info.released_amount, 200);
    assert_eq!(resp.info.clawbackable, Some(true));
}

#[test]
fn register_rejects_mismatched_deposit_atomically() {
    let mut ledger = Ledger::new();
    let batch = vec![
        account("addr1111", vec![cliff(1000, 500)], None),
        account("addr2222", vec![linear(1000, 0, 2000, 1000)], None),
    ];
    // Declared ceilings sum to 1500, not 1400: the whole batch dies.
    let res = register_vesting_accounts(&mut ledger, batch, 1400);
    assert_eq!(res, Err(ContractError::VestingScheduleAmountError));
    // No partial write survives.
    assert_eq!(
        query_vesting_account(&ledger, "addr1111".to_string()),
        Err(ContractError::NotFound)
    );
    assert_eq!(
        query_vesting_account(&ledger, "addr2222".to_string()),
        Err(ContractError::NotFound)
    );
}

#[test]
fn register_rejects_invalid_schedule() {
    let mut ledger = Ledger::new();
    // End amount does not exceed the start amount: invalid.
    let bad = VestingSchedule { start_point: point(1000, 500), end_point: Some(point(2000, 500)) };
    let res = register_vesting_accounts(&mut ledger, vec![account("addr1234", vec![bad], None)], 500);
    assert_eq!(res, Err(ContractError::VestingScheduleError("addr1234".to_string())));
}

#[test]
fn register_rejects_non_canonical_address() {
    let mut ledger = Ledger::new();
    let res = register_vesting_accounts(
        &mut ledger,
        vec![account("Addr1234", vec![cliff(1000, 500)], None)],
        500,
    );
    assert_eq!(res, Err(ContractError::InvalidInput));
}

#[test]
fn register_rejects_overflowing_ceilings() {
    let mut ledger = Ledger::new();
    let batch = vec![account(
        "addr1234",
        vec![cliff(1000, u128::MAX), cliff(2000, 1)],
        None,
    )];
    let res = register_vesting_accounts(&mut ledger, batch, u128::MAX);
    assert_eq!(res, Err(ContractError::Overflow));
}

#[test]
fn claim_full_then_again_yields_zero() {
    let mut ledger = Ledger::new();
    let batch = vec![account("addr1234", vec![linear(1000, 0, 2000, 1000)], None)];
    register_vesting_accounts(&mut ledger, batch, 1000).unwrap();

    // With no requested amount the whole available balance is withdrawn.
    let intent = claim(&mut ledger, 1500, &"addr1234".to_string(), None, None)
        .unwrap()
        .unwrap();
    assert_eq!(intent.amount, 500);
    assert_eq!(intent.recipient, "addr1234".to_string());

    // Immediately afterwards nothing is available: the second claim is a
    // quiet no-op, not an error.
    assert_eq!(
        query_vesting_available_amount(&ledger, 1500, "addr1234".to_string()),
        Ok(0)
    );
    let res = claim(&mut ledger, 1500, &"addr1234".to_string(), None, None).unwrap();
    assert!(res.is_none());
}

#[test]
fn claim_respects_requested_amount_and_recipient() {
    let mut ledger = Ledger::new();
    let batch = vec![account("addr1234", vec![linear(1000, 0, 2000, 1000)], None)];
    register_vesting_accounts(&mut ledger, batch, 1000).unwrap();

    let res = claim(&mut ledger, 1500, &"addr1234".to_string(), None, Some(501));
    assert_eq!(res, Err(ContractError::AmountIsNotAvailable));

    let intent = claim(
        &mut ledger,
        1500,
        &"addr1234".to_string(),
        Some("other0000".to_string()),
        Some(300),
    )
    .unwrap()
    .unwrap();
    assert_eq!(intent.amount, 300);
    assert_eq!(intent.recipient, "other0000".to_string());
    assert_eq!(
        query_vesting_available_amount(&ledger, 1500, "addr1234".to_string()),
        Ok(200)
    );
}

#[test]
fn claim_without_account_is_not_found() {
    let mut ledger = Ledger::new();
    let res = claim(&mut ledger, 1500, &"addr1234".to_string(), None, None);
    assert_eq!(res, Err(ContractError::NotFound));
}

#[test]
fn clawback_denied_and_default_allowed() {
    let msg = InstantiateMsg { owner: "owner".to_string(), token_addr: "vested_token".to_string() };
    let config = instantiate(&msg).unwrap();

    let mut ledger = Ledger::new();
    let batch = vec![
        account("locked0000", vec![linear(1000, 0, 2000, 1000)], Some(false)),
        account("open0000", vec![linear(1000, 0, 2000, 1000)], None),
    ];
    register_vesting_accounts(&mut ledger, batch, 2000).unwrap();

    // An explicit `false` forbids revocation no matter the amounts.
    let res = clawback(&config, &mut ledger, 1500, &"owner".to_string(), &"locked0000".to_string());
    assert_eq!(res, Err(ContractError::Unauthorized));

    // An unset flag allows it, for the whole remaining entitlement.
    let intent = clawback(&config, &mut ledger, 1500, &"owner".to_string(), &"open0000".to_string())
        .unwrap()
        .unwrap();
    assert_eq!(intent.amount, 1000);
    assert_eq!(intent.recipient, "owner".to_string());

    // Only the controller may claw back at all.
    let res = clawback(&config, &mut ledger, 1500, &"other0000".to_string(), &"open0000".to_string());
    assert_eq!(res, Err(ContractError::Unauthorized));

    // A missing target account is reported as such.
    let res = clawback(&config, &mut ledger, 1500, &"ghost0000".to_string(), &"nobody".to_string());
    assert_eq!(res, Err(ContractError::Unauthorized));
    let res = clawback(&config, &mut ledger, 1500, &"owner".to_string(), &"nobody".to_string());
    assert_eq!(res, Err(ContractError::NotFound));
}

#[test]
fn clawback_marks_amount_released() {
    let msg = InstantiateMsg { owner: "owner".to_string(), token_addr: "vested_token".to_string() };
    let config = instantiate(&msg).unwrap();

    let mut ledger = Ledger::new();
    let batch = vec![account("addr1234", vec![linear(1000, 0, 2000, 1000)], Some(true))];
    register_vesting_accounts(&mut ledger, batch, 1000).unwrap();

    let intent = clawback(&config, &mut ledger, 1500, &"owner".to_string(), &"addr1234".to_string())
        .unwrap()
        .unwrap();
    assert_eq!(intent.amount, 1000);

    // The whole entitlement now counts as released: the target's record
    // reads as over-released until vesting catches up, and the claim
    // surfaces that as the internal underflow error.
    let res = claim(&mut ledger, 1500, &"addr1234".to_string(), None, None);
    assert_eq!(res, Err(ContractError::Underflow));
    // Once fully vested, nothing is left to claim.
    assert_eq!(
        query_vesting_available_amount(&ledger, 2000, "addr1234".to_string()),
        Ok(0)
    );
}

#[test]
fn ownership_handshake_cycle() {
    let msg = InstantiateMsg { owner: "owner".to_string(), token_addr: "vested_token".to_string() };
    let mut config = instantiate(&msg).unwrap();
    let mut proposal = None;

    // Only the owner proposes.
    let res = propose_new_owner(&config, &mut proposal, 100, &"mallory".to_string(), "new0wner".to_string(), 50);
    assert_eq!(res, Err(ContractError::Unauthorized));

    // Proposing the current owner is rejected.
    let res = propose_new_owner(&config, &mut proposal, 100, &"owner".to_string(), "owner".to_string(), 50);
    assert_eq!(res, Err(ContractError::InvalidInput));

    // A time-to-live above the ceiling is rejected.
    let res = propose_new_owner(&config, &mut proposal, 100, &"owner".to_string(), "new0wner".to_string(), 1209601);
    assert_eq!(res, Err(ContractError::InvalidInput));

    propose_new_owner(&config, &mut proposal, 100, &"owner".to_string(), "new0wner".to_string(), 50).unwrap();

    // Nobody but the proposed owner may accept.
    let res = claim_ownership(&mut config, &mut proposal, 120, &"mallory".to_string());
    assert_eq!(res, Err(ContractError::Unauthorized));

    // Accepting after the expiry fails.
    let res = claim_ownership(&mut config, &mut proposal, 151, &"new0wner".to_string());
    assert_eq!(res, Err(ContractError::Expired));

    // Accepting in time by the proposed owner replaces the owner.
    claim_ownership(&mut config, &mut proposal, 150, &"new0wner".to_string()).unwrap();
    assert_eq!(config.owner, "new0wner".to_string());
    assert!(proposal.is_none());

    // The consumed proposal cannot be accepted twice.
    let res = claim_ownership(&mut config, &mut proposal, 150, &"new0wner".to_string());
    assert_eq!(res, Err(ContractError::NotFound));
}

#[test]
fn ownership_proposal_drop_and_overflow() {
    let msg = InstantiateMsg { owner: "owner".to_string(), token_addr: "vested_token".to_string() };
    let config = instantiate(&msg).unwrap();
    let mut proposal = None;

    propose_new_owner(&config, &mut proposal, 100, &"owner".to_string(), "new0wner".to_string(), 50).unwrap();
    let res = drop_ownership_proposal(&config, &mut proposal, &"mallory".to_string());
    assert_eq!(res, Err(ContractError::Unauthorized));
    drop_ownership_proposal(&config, &mut proposal, &"owner".to_string()).unwrap();
    assert!(proposal.is_none());

    // An expiry that leaves the integer range is refused.
    let res = propose_new_owner(&config, &mut proposal, u64::MAX, &"owner".to_string(), "new0wner".to_string(), 1);
    assert_eq!(res, Err(ContractError::Overflow));
}

#[test]
fn instantiate_rejects_non_canonical_identities() {
    let msg = InstantiateMsg { owner: "Owner".to_string(), token_addr: "vested_token".to_string() };
    assert_eq!(instantiate(&msg), Err(ContractError::InvalidInput));
    let msg = InstantiateMsg { owner: "owner".to_string(), token_addr: "Vested_Token".to_string() };
    assert_eq!(instantiate(&msg), Err(ContractError::InvalidInput));
}

#[test]
fn receive_cw20_guards_the_deposit_path() {
    let msg = InstantiateMsg { owner: "owner".to_string(), token_addr: "vested_token".to_string() };
    let config = instantiate(&msg).unwrap();
    let mut ledger = Ledger::new();

    let hook = Cw20HookMsg::RegisterVestingAccounts {
        vesting_accounts: vec![account("addr1234", vec![cliff(1000, 500)], None)],
    };

    // Wrong token contract.
    let res = receive_cw20(&config, &mut ledger, &"impostor".to_string(), &"owner".to_string(), 500, hook.clone());
    assert_eq!(res, Err(ContractError::Unauthorized));
    // Wrong depositor.
    let res = receive_cw20(&config, &mut ledger, &"vested_token".to_string(), &"mallory".to_string(), 500, hook.clone());
    assert_eq!(res, Err(ContractError::Unauthorized));
    // The real thing.
    receive_cw20(&config, &mut ledger, &"vested_token".to_string(), &"owner".to_string(), 500, hook).unwrap();
    assert!(query_vesting_account(&ledger, "addr1234".to_string()).is_ok());
}

#[test]
fn query_surface_reports_state() {
    let mut ledger = Ledger::new();
    let batch = vec![
        account("aaa", vec![cliff(1000, 500)], None),
        account("bbb", vec![cliff(1000, 700)], None),
    ];
    register_vesting_accounts(&mut ledger, batch, 1200).unwrap();

    assert_eq!(query_timestamp(4242), 4242);

    let resp = query_vesting_accounts(&ledger, None, None, Some(OrderBy::Asc)).unwrap();
    let names: Vec<String> = resp.vesting_accounts.iter().map(|a| a.address.clone()).collect();
    assert_eq!(names, vec!["aaa".to_string(), "bbb".to_string()]);

    let resp = query_vesting_accounts(&ledger, None, None, None).unwrap();
    let names: Vec<String> = resp.vesting_accounts.iter().map(|a| a.address.clone()).collect();
    assert_eq!(names, vec!["bbb".to_string(), "aaa".to_string()]);

    let res = query_vesting_accounts(&ledger, Some("AAA".to_string()), None, None);
    assert_eq!(res, Err(ContractError::InvalidInput));

    assert_eq!(
        query_vesting_available_amount(&ledger, 1000, "bbb".to_string()),
        Ok(700)
    );
    assert_eq!(
        query_vesting_available_amount(&ledger, 1000, "zzz".to_string()),
        Err(ContractError::NotFound)
    );
}
