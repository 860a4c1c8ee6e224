use vstd::prelude::*;

verus! {

/// Direction of an account-listing query.
#[derive(Clone, Copy, PartialEq, Eq, Structural, Debug)]
pub enum OrderBy {
    Asc,
    Desc,
}

/// Initial configuration: the controller and the settlement token service.
#[derive(Clone, PartialEq, Eq, Debug)]
pub struct InstantiateMsg {
    pub owner: String,
    pub token_addr: String,
}

/// The read-only query surface.
#[derive(Clone, PartialEq, Eq, Debug)]
pub enum QueryMsg {
    Config,
    VestingAccount { address: String },
    VestingAccounts { start_after: Option<String>, limit: Option<u32>, order_by: Option<OrderBy> },
    AvailableAmount { address: String },
    Timestamp,
}

/// A cumulative-amount checkpoint of a schedule.
#[derive(Clone, Copy, PartialEq, Eq, Debug)]
pub struct VestingSchedulePoint {
    /// Wall-clock time of the checkpoint, in seconds.
    pub time: u64,
    /// Cumulative amount unlocked at that time.
    pub amount: u128,
}

/// A linear-release rule: a start checkpoint and an optional end
/// checkpoint, with linear interpolation between them. A schedule
/// without an end point is an immediate cliff at the start point.
#[derive(Clone, Copy, PartialEq, Eq, Debug)]
pub struct VestingSchedule {
    pub start_point: VestingSchedulePoint,
    pub end_point: Option<VestingSchedulePoint>,
}

impl VestingSchedule {
    /// The schedule invariant: an end point must lie strictly after the
    /// start point in both time and amount.
    pub open spec fn is_valid(self) -> bool {
        match self.end_point {
            Some(end) => self.start_point.time < end.time && self.start_point.amount < end.amount,
            None => true,
        }
    }

    /// The most a schedule can ever release: the end amount if an end
    /// point exists, else the cliff amount.
    pub open spec fn cap(self) -> u128 {
        match self.end_point {
            Some(end) => end.amount,
            None => self.start_point.amount,
        }
    }
}

/// One account's vesting record: its schedules, how much has already
/// been paid out, and whether the controller may revoke it.
#[derive(PartialEq, Eq, Debug)]
pub struct VestingInfo {
    pub schedules: Vec<VestingSchedule>,
    pub released_amount: u128,
    /// `None` counts as revocable: only an explicit `false` forbids clawback.
    pub clawbackable: Option<bool>,
}

/// The mathematical value of a [`VestingInfo`].
pub struct VestingInfoV {
    pub schedules: Seq<VestingSchedule>,
    pub released_amount: u128,
    pub clawbackable: Option<bool>,
}

impl View for VestingInfo {
    type V = VestingInfoV;

    open spec fn view(&self) -> VestingInfoV {
        VestingInfoV {
            schedules: self.schedules@,
            released_amount: self.released_amount,
            clawbackable: self.clawbackable,
        }
    }
}

impl Clone for VestingInfo {
    /// The copy carries the same mathematical value as the original.
    fn clone(&self) -> (r: Self)
        ensures
            r@ == self@,
    {
        let mut schedules: Vec<VestingSchedule> = Vec::new();
        let n = self.schedules.len();
        let mut i: usize = 0;
        while i < n
            invariant
                i <= n,
                n == self.schedules@.len(),
                schedules@ == self.schedules@.take(i as int),
            decreases n - i,
        {
            schedules.push(self.schedules[i]);
            proof {
                assert(self.schedules@.take(i + 1) =~= self.schedules@.take(i as int).push(
                    self.schedules@[i as int],
                ));
            }
            i += 1;
        }
        proof {
            assert(self.schedules@.take(n as int) =~= self.schedules@);
        }
        VestingInfo {
            schedules,
            released_amount: self.released_amount,
            clawbackable: self.clawbackable,
        }
    }
}

impl VestingInfoV {
    pub open spec fn is_valid(self) -> bool {
        forall|i: int| 0 <= i < self.schedules.len() ==> (#[trigger] self.schedules[i]).is_valid()
    }
}

/// One incoming deposit entry of a batch registration.
#[derive(Clone, PartialEq, Eq, Debug)]
pub struct VestingAccount {
    pub address: String,
    pub schedules: Vec<VestingSchedule>,
    pub clawbackable: Option<bool>,
}

/// The single command carried by a token-receive notification.
#[derive(Clone, PartialEq, Eq, Debug)]
pub enum Cw20HookMsg {
    RegisterVestingAccounts { vesting_accounts: Vec<VestingAccount> },
}

/// Answer to a configuration query.
#[derive(Clone, PartialEq, Eq, Debug)]
pub struct ConfigResponse {
    pub owner: String,
    pub token_addr: String,
}

/// Answer to a single-account query.
#[derive(Clone, PartialEq, Eq, Debug)]
pub struct VestingAccountResponse {
    pub address: String,
    pub info: VestingInfo,
}

/// Answer to an account-listing query.
#[derive(Clone, PartialEq, Eq, Debug)]
pub struct VestingAccountsResponse {
    pub vesting_accounts: Vec<VestingAccountResponse>,
}

/// A version-migration request; carries nothing.
#[derive(Clone, PartialEq, Eq, Structural, Debug)]
pub struct MigrateMsg {}

/// A request to the settlement service: pay `amount` to `recipient`
/// from the ledger's token balance. The core only constructs this
/// intent; executing the transfer is the surrounding runtime's task.
#[derive(Clone, PartialEq, Eq, Debug)]
pub struct TransferIntent {
    pub recipient: String,
    pub amount: u128,
}

} // verus!
