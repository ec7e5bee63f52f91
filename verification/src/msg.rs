//! Messages in and out, as plain values. Addresses arrive with the host's
//! verdict on them: `Ok` with the address it accepted, or its refusal.

use crate::error::StdError;
use crate::math::Decimal;
use crate::state::Addr;
use crate::state::ConsumerInfo;
use crate::state::ValStatus;
use vstd::prelude::*;

verus! {

/// The contract's own place on the chain.
#[derive(Clone, Debug, PartialEq, Eq)]
pub struct Env {
    pub contract_address: Addr,
}

/// An amount of one denomination.
#[derive(Clone, Debug, PartialEq, Eq)]
pub struct Coin {
    pub denom: String,
    pub amount: u128,
}

/// Who sent the message, and the funds that came with it.
#[derive(Clone, Debug, PartialEq, Eq)]
pub struct MessageInfo {
    pub sender: Addr,
    pub funds: Vec<Coin>,
}

/// How to instantiate the slasher.
#[derive(Clone, Debug, PartialEq, Eq)]
pub struct SlasherInfo {
    pub code_id: u64,
    pub msg: Vec<u8>,
}

#[derive(Debug, PartialEq, Eq)]
pub struct InstantiateMsg {
    pub consumer: ConsumerInfo,
    pub slasher: SlasherInfo,
    /// The escrow that may send stake claims.
    pub lockup: Result<Addr, StdError>,
    /// Seconds between an unstake and the release of its tokens.
    pub unbonding_period: u64,
}

#[derive(Debug, PartialEq, Eq)]
pub enum ExecuteMsg {
    /// The escrow reports `amount` tokens of `owner` staked on `validator`.
    ReceiveClaim { owner: Result<Addr, StdError>, amount: u128, validator: String },
    /// The slasher takes `percentage` off the value of `validator`'s pool.
    Slash { validator: String, percentage: Decimal, force_unbond: bool },
    /// The sender takes `amount` tokens out of `validator`'s pool.
    Unstake { amount: u128, validator: String },
    /// The sender asks for the release of what has matured.
    Unbond {  },
}

#[allow(inconsistent_fields)]
#[derive(Debug, PartialEq, Eq)]
pub enum QueryMsg {
    Config {  },
    Account { address: Result<Addr, StdError> },
    Validator { address: String },
    ListValidators { start_after: Option<String>, limit: Option<u32> },
}

#[derive(Clone, Debug, PartialEq, Eq)]
pub struct ConfigResponse {
    pub consumer: ConsumerInfo,
    pub slasher: Option<String>,
}

/// One position of an account, at today's value.
#[derive(Clone, Debug, PartialEq, Eq)]
pub struct StakeInfo {
    pub validator: String,
    /// What the position is worth now.
    pub tokens: u128,
    /// What slashing has taken from the tokens locked.
    pub slashed: u128,
}

#[derive(Clone, Debug, PartialEq, Eq)]
pub struct AccountResponse {
    pub staked: Vec<StakeInfo>,
}

#[derive(Clone, Debug, PartialEq, Eq)]
pub struct ValidatorResponse {
    pub address: String,
    /// What the pool is worth now.
    pub tokens: u128,
    pub status: ValStatus,
    pub multiplier: Decimal,
}

#[derive(Clone, Debug, PartialEq, Eq)]
pub struct ListValidatorsResponse {
    pub validators: Vec<ValidatorResponse>,
}

#[derive(Clone, Debug, PartialEq, Eq)]
pub enum QueryResponse {
    Config(ConfigResponse),
    Account(AccountResponse),
    Validator(ValidatorResponse),
    ListValidators(ListValidatorsResponse),
}

/// A request to instantiate a contract, answered only on success and then
/// under `id`.
#[derive(Clone, Debug, PartialEq, Eq)]
pub struct SubMsg {
    pub id: u64,
    pub admin: Option<String>,
    pub code_id: u64,
    pub msg: Vec<u8>,
    pub label: String,
}

#[derive(Clone, Debug, PartialEq, Eq)]
pub struct Attribute {
    pub key: String,
    pub value: String,
}

/// What an operation hands back to the host: requests to carry out and
/// attributes to log.
#[derive(Clone, Debug, PartialEq, Eq)]
pub struct Response {
    pub messages: Vec<SubMsg>,
    pub attributes: Vec<Attribute>,
}

/// What a successful sub-call returned.
#[derive(Clone, Debug, PartialEq, Eq)]
pub struct SubMsgResponse {
    pub data: Option<Vec<u8>>,
}

/// The answer to the sub-call that was sent under `id`.
#[derive(Debug, PartialEq, Eq)]
pub struct Reply {
    pub id: u64,
    pub result: Result<SubMsgResponse, String>,
}

impl Response {
    /// A response that asks for nothing and logs nothing.
    pub fn new() -> (r: Response)
        ensures
            r.is_empty(),
    {
        Response { messages: Vec::new(), attributes: Vec::new() }
    }

    pub open spec fn is_empty(self) -> bool {
        self.messages@.len() == 0 && self.attributes@.len() == 0
    }

    /// Whether the `i`-th attribute is `key` set to `value`.
    pub open spec fn logs(self, i: int, key: Seq<char>, value: Seq<char>) -> bool {
        &&& 0 <= i < self.attributes@.len()
        &&& self.attributes@[i].key@ == key
        &&& self.attributes@[i].value@ == value
    }

    pub fn add_attribute(&mut self, key: &str, value: String)
        ensures
            final(self).messages == old(self).messages,
            final(self).attributes@.len() == old(self).attributes@.len() + 1,
            final(self).logs(old(self).attributes@.len() as int, key@, value@),
            forall|i: int, k: Seq<char>, v: Seq<char>|
                old(self).logs(i, k, v) ==> #[trigger] final(self).logs(i, k, v),
    {
        self.attributes.push(Attribute { key: String::from_str(key), value });
    }
}

} // verus!
