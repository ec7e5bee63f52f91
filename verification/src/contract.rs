//! The operations of the provider: instantiation and the slasher's
//! answer, the three ledger operations behind their gates, and the queries.

use crate::error::ContractError;
use crate::error::ParseReplyError;
use crate::error::StdError;
use crate::ledger::failure;
use crate::ledger::Ledger;
use crate::ledger::ValidatorEntry;
use crate::msg::AccountResponse;
use crate::msg::ConfigResponse;
use crate::msg::Env;
use crate::msg::ExecuteMsg;
use crate::msg::InstantiateMsg;
use crate::msg::ListValidatorsResponse;
use crate::msg::MessageInfo;
use crate::msg::QueryMsg;
use crate::msg::QueryResponse;
use crate::msg::Reply;
use crate::msg::Response;
use crate::msg::StakeInfo;
use crate::msg::SubMsg;
use crate::msg::ValidatorResponse;
use crate::math::Decimal;
use crate::order::comes_before;
use crate::order::str_precedes;
use crate::state::Addr;
use crate::state::Config;
use crate::state::ConsumerInfo;
use crate::state::Stake;
use crate::state::Validator;
use vstd::prelude::*;

verus! {

/// The id under which the slasher's instantiation is answered.
pub const INIT_CALLBACK_ID: u64 = 1;

/// The most validators one page lists.
pub const MAX_LIMIT: u32 = 100;

/// The validators a page lists where no limit is asked for.
pub const DEFAULT_LIMIT: u32 = 30;

/// The contract address that cw-utils' `parse_instantiate_response_data`
/// reads out of `data`, `None` where it refuses the data. The parser cuts
/// lengths to the machine's word, so the word's width is an argument.
pub uninterp spec fn instantiate_reply_address(data: Seq<u8>, usize_bits: u32) -> Option<Seq<char>>;

/// `parse_instantiate_response_data` of cw-utils, which decodes the
/// protobuf message that the chain returns for an instantiation. Of its
/// answer the contract address is kept. It refuses data with a parse
/// failure or as broken UTF-8, never as a failed sub-call.
#[verifier::external_body]
fn parse_reply_address(data: &Vec<u8>) -> (r: Result<String, ParseReplyError>)
    ensures
        match r {
            Ok(address) => instantiate_reply_address(data@, usize::BITS) == Some(address@),
            Err(e) => instantiate_reply_address(data@, usize::BITS) is None && !(e
                is SubMsgFailure),
        },
{
    match cw_utils::parse_instantiate_response_data(data.as_slice()) {
        Ok(response) => Ok(response.contract_address),
        Err(cw_utils::ParseReplyError::SubMsgFailure(msg)) => Err(ParseReplyError::SubMsgFailure(msg)),
        Err(cw_utils::ParseReplyError::ParseFailure(msg)) => Err(ParseReplyError::ParseFailure(msg)),
        Err(cw_utils::ParseReplyError::BrokenUtf8(_)) => Err(ParseReplyError::BrokenUtf8),
    }
}

/// Sets up an empty ledger for the escrow named in `msg` and asks for the
/// slasher to be instantiated, with this contract as its admin. Fails with
/// the host's refusal where it did not accept the escrow's address.
pub fn instantiate(env: Env, info: MessageInfo, msg: InstantiateMsg) -> (r: Result<
    (Ledger, Response),
    ContractError,
>)
    ensures
        match msg.lockup {
            Err(refusal) => r matches Err(ContractError::Std(e)) && e == refusal,
            Ok(lockup) => r matches Ok((ledger, response)) && {
                &&& ledger.wf()
                &&& ledger.validators@.len() == 0
                &&& ledger.config == (Config {
                    consumer: msg.consumer,
                    slasher: None,
                    lockup,
                    unbonding_period: msg.unbonding_period,
                })
                &&& response.messages@.len() == 1
                &&& response.messages@[0].id == INIT_CALLBACK_ID
                &&& response.messages@[0].admin matches Some(admin) && admin@
                    == env.contract_address@
                &&& response.messages@[0].code_id == msg.slasher.code_id
                &&& response.messages@[0].msg == msg.slasher.msg
                &&& response.messages@[0].label@ == "Slasher for "@ + env.contract_address@
                &&& response.attributes@.len() == 2
                &&& response.logs(0, "method"@, "instantiate"@)
                &&& response.logs(1, "owner"@, info.sender@)
            },
        },
{
    let lockup = match msg.lockup {
        Ok(lockup) => lockup,
        Err(e) => { return Err(ContractError::Std(e)); },
    };
    let config = Config {
        consumer: msg.consumer,
        slasher: None,
        lockup,
        unbonding_period: msg.unbonding_period,
    };
    let ledger = Ledger::new(config);
    let label = String::from_str("Slasher for ").concat(env.contract_address.as_str());
    let request = SubMsg {
        id: INIT_CALLBACK_ID,
        admin: Some(env.contract_address.into_string()),
        code_id: msg.slasher.code_id,
        msg: msg.slasher.msg,
        label,
    };
    let mut response = Response::new();
    response.messages.push(request);
    response.add_attribute("method", String::from_str("instantiate"));
    response.add_attribute("owner", info.sender.into_string());
    Ok((ledger, response))
}

/// The bytes a sub-call returned, none where it returned no data.
pub open spec fn reply_data(data: Option<Vec<u8>>) -> Seq<u8> {
    match data {
        Some(bytes) => bytes@,
        None => Seq::empty(),
    }
}

/// Reads the slasher's address out of the answer to its instantiation, for
/// the host to check. Any id but the one the instantiation was sent under
/// is refused; so is an answer that reports a failure, carries no address
/// or carries data that cannot be read.
pub fn reply(msg: Reply) -> (r: Result<String, ContractError>)
    ensures
        if msg.id != INIT_CALLBACK_ID {
            r matches Err(ContractError::InvalidReplyId(id)) && id == msg.id
        } else {
            match msg.result {
                Err(reason) => r matches Err(
                    ContractError::Parse(ParseReplyError::SubMsgFailure(text)),
                ) && text == reason,
                Ok(answer) => match instantiate_reply_address(
                    reply_data(answer.data),
                    usize::BITS,
                ) {
                    Some(address) => r matches Ok(found) && found@ == address,
                    None => r matches Err(ContractError::Parse(e)) && !(e is SubMsgFailure),
                },
            }
        },
{
    if msg.id != INIT_CALLBACK_ID {
        return Err(ContractError::InvalidReplyId(msg.id));
    }
    let answer = match msg.result {
        Ok(answer) => answer,
        Err(reason) => {
            return Err(ContractError::Parse(ParseReplyError::SubMsgFailure(reason)));
        },
    };
    let data: Vec<u8> = match answer.data {
        Some(bytes) => bytes,
        None => Vec::new(),
    };
    match parse_reply_address(&data) {
        Ok(address) => Ok(address),
        Err(e) => Err(ContractError::Parse(e)),
    }
}

/// Records the slasher once the host has checked the address that `reply`
/// found. Fails with the host's refusal, changing nothing, where it did not
/// accept the address.
pub fn reply_init_callback(ledger: &mut Ledger, slasher: Result<Addr, StdError>) -> (r: Result<
    Response,
    ContractError,
>)
    ensures
        old(ledger).wf() ==> final(ledger).wf(),
        match slasher {
            Err(refusal) => r matches Err(ContractError::Std(e)) && e == refusal && *final(ledger)
                == *old(ledger),
            Ok(address) => r matches Ok(response) && response.is_empty() && *final(ledger) == (
            Ledger {
                config: Config { slasher: Some(address), ..old(ledger).config },
                validators: old(ledger).validators,
            }),
        },
{
    match slasher {
        Ok(address) => {
            ledger.config.slasher = Some(address);
            Ok(Response::new())
        },
        Err(e) => Err(ContractError::Std(e)),
    }
}

/// Whether `sender` is the slasher on record. Before the slasher has
/// answered nobody is.
pub open spec fn is_slasher(config: Config, sender: Seq<char>) -> bool {
    config.slasher matches Some(slasher) && slasher@ == sender
}

/// Carries out `msg` for its sender.
pub fn execute(ledger: &mut Ledger, info: MessageInfo, msg: ExecuteMsg) -> (r: Result<
    Response,
    ContractError,
>)
    requires
        old(ledger).wf(),
    ensures
        final(ledger).wf(),
        match msg {
            ExecuteMsg::ReceiveClaim { owner, amount, validator } => claim_received(
                *old(ledger),
                *final(ledger),
                r,
                info,
                owner,
                amount,
                validator@,
            ),
            ExecuteMsg::Slash { validator, percentage, force_unbond } => slash_executed(
                *old(ledger),
                *final(ledger),
                r,
                info,
                validator@,
                percentage,
                force_unbond,
            ),
            ExecuteMsg::Unstake { amount, validator } => unstake_executed(
                *old(ledger),
                *final(ledger),
                r,
                info,
                validator@,
                amount,
            ),
            ExecuteMsg::Unbond {  } => r matches Err(
                ContractError::Std(StdError::GenericErr { msg }),
            ) && msg@ == "unbonding is not available"@ && *final(ledger) == *old(ledger),
        },
{
    match msg {
        ExecuteMsg::ReceiveClaim { owner, amount, validator } => execute_receive_claim(
            ledger,
            info,
            owner,
            amount,
            validator,
        ),
        ExecuteMsg::Slash { validator, percentage, force_unbond } => execute_slash(
            ledger,
            info,
            validator,
            percentage,
            force_unbond,
        ),
        ExecuteMsg::Unstake { amount, validator } => execute_unstake(
            ledger,
            info,
            validator,
            amount,
        ),
        ExecuteMsg::Unbond {  } => execute_unbond(ledger, info),
    }
}

/// What a stake claim does: refused as unauthorized unless the escrow
/// sent it, then with the host's refusal of the owner's address, then for
/// an amount of zero; else the stake is added for the owner.
pub open spec fn claim_received(
    before: Ledger,
    after: Ledger,
    r: Result<Response, ContractError>,
    info: MessageInfo,
    owner: Result<Addr, StdError>,
    amount: u128,
    validator: Seq<char>,
) -> bool {
    if before.config.lockup@ != info.sender@ {
        r matches Err(ContractError::Unauthorized) && after == before
    } else {
        match owner {
            Err(refusal) => r matches Err(ContractError::Std(e)) && e == refusal && after
                == before,
            Ok(owner) => if amount == 0 {
                r matches Err(ContractError::ZeroAmount) && after == before
            } else {
                &&& before.stake_added(after, failure(r), owner@, validator, amount)
                &&& r matches Ok(response) ==> response.is_empty()
            },
        }
    }
}

pub fn execute_receive_claim(
    ledger: &mut Ledger,
    info: MessageInfo,
    owner: Result<Addr, StdError>,
    amount: u128,
    validator: String,
) -> (r: Result<Response, ContractError>)
    requires
        old(ledger).wf(),
    ensures
        final(ledger).wf(),
        claim_received(*old(ledger), *final(ledger), r, info, owner, amount, validator@),
{
    if !ledger.config.lockup.same(&info.sender) {
        return Err(ContractError::Unauthorized);
    }
    let owner = match owner {
        Ok(owner) => owner,
        Err(e) => { return Err(ContractError::Std(e)); },
    };
    if amount == 0 {
        return Err(ContractError::ZeroAmount);
    }
    match ledger.add_stake(owner, validator.as_str(), amount) {
        Ok(()) => Ok(Response::new()),
        Err(e) => Err(e),
    }
}

/// What a slash does: refused as unauthorized unless the slasher on record
/// sent it, then for a percentage of zero; else the validator is slashed,
/// whatever its status, and the slash is logged.
pub open spec fn slash_executed(
    before: Ledger,
    after: Ledger,
    r: Result<Response, ContractError>,
    info: MessageInfo,
    validator: Seq<char>,
    percentage: Decimal,
    force_unbond: bool,
) -> bool {
    if !is_slasher(before.config, info.sender@) {
        r matches Err(ContractError::Unauthorized) && after == before
    } else if percentage.atomics == 0 {
        r matches Err(ContractError::ZeroAmount) && after == before
    } else {
        &&& before.slashed(after, failure(r), validator, percentage, force_unbond)
        &&& r matches Ok(response) ==> {
            &&& response.messages@.len() == 0
            &&& response.attributes@.len() == 2
            &&& response.logs(0, "action"@, "slash"@)
            &&& response.logs(1, "validator"@, validator)
        }
    }
}

pub fn execute_slash(
    ledger: &mut Ledger,
    info: MessageInfo,
    validator: String,
    percentage: Decimal,
    force_unbond: bool,
) -> (r: Result<Response, ContractError>)
    requires
        old(ledger).wf(),
    ensures
        final(ledger).wf(),
        slash_executed(
            *old(ledger),
            *final(ledger),
            r,
            info,
            validator@,
            percentage,
            force_unbond,
        ),
{
    let authorized: bool = match &ledger.config.slasher {
        Some(slasher) => slasher.same(&info.sender),
        None => false,
    };
    if !authorized {
        return Err(ContractError::Unauthorized);
    }
    if percentage.is_zero() {
        return Err(ContractError::ZeroAmount);
    }
    match ledger.slash(validator.as_str(), percentage, force_unbond) {
        Ok(()) => {},
        Err(e) => { return Err(e); },
    }
    let mut response = Response::new();
    response.add_attribute("action", String::from_str("slash"));
    response.add_attribute("validator", validator);
    Ok(response)
}

/// What an unstake does: refused for an amount of zero; else the amount is
/// taken out of the sender's position.
pub open spec fn unstake_executed(
    before: Ledger,
    after: Ledger,
    r: Result<Response, ContractError>,
    info: MessageInfo,
    validator: Seq<char>,
    amount: u128,
) -> bool {
    if amount == 0 {
        r matches Err(ContractError::ZeroAmount) && after == before
    } else {
        &&& before.stake_removed(after, failure(r), info.sender@, validator, amount)
        &&& r matches Ok(response) ==> response.is_empty()
    }
}

pub fn execute_unstake(ledger: &mut Ledger, info: MessageInfo, validator: String, amount: u128) -> (r:
    Result<Response, ContractError>)
    requires
        old(ledger).wf(),
    ensures
        final(ledger).wf(),
        unstake_executed(*old(ledger), *final(ledger), r, info, validator@, amount),
{
    if amount == 0 {
        return Err(ContractError::ZeroAmount);
    }
    match ledger.remove_stake(&info.sender, validator.as_str(), amount) {
        Ok(()) => Ok(Response::new()),
        Err(e) => Err(e),
    }
}

/// The release of matured tokens is not part of the ledger: the request is
/// refused and nothing changes.
pub fn execute_unbond(ledger: &mut Ledger, info: MessageInfo) -> (r: Result<
    Response,
    ContractError,
>)
    ensures
        r matches Err(ContractError::Std(StdError::GenericErr { msg })) && msg@
            == "unbonding is not available"@,
        *final(ledger) == *old(ledger),
{
    Err(
        ContractError::Std(
            StdError::GenericErr { msg: String::from_str("unbonding is not available") },
        ),
    )
}

/// The page size for a limit asked for: the default where none is, and
/// never above the maximum.
pub open spec fn page_size(limit: Option<u32>) -> nat {
    match limit {
        None => DEFAULT_LIMIT as nat,
        Some(n) => if n < MAX_LIMIT {
            n as nat
        } else {
            MAX_LIMIT as nat
        },
    }
}

/// What a validator's entry shows to a query.
pub open spec fn response_of(address: String, val: Validator) -> ValidatorResponse {
    ValidatorResponse {
        address,
        tokens: val.value() as u128,
        status: val.status,
        multiplier: val.multiplier,
    }
}

/// The first `limit` of `entries` whose address comes after `start`, in
/// their order.
pub open spec fn page(entries: Seq<ValidatorEntry>, start: Option<Seq<char>>, limit: nat) -> Seq<
    ValidatorResponse,
>
    decreases entries.len(),
{
    if entries.len() == 0 || limit == 0 {
        Seq::empty()
    } else if start matches Some(s) && !str_precedes(s, entries[0].address@) {
        page(entries.drop_first(), start, limit)
    } else {
        seq![response_of(entries[0].address, entries[0].validator)] + page(
            entries.drop_first(),
            start,
            (limit - 1) as nat,
        )
    }
}

/// A page holds no more than its limit.
pub proof fn lemma_page_len(entries: Seq<ValidatorEntry>, start: Option<Seq<char>>, limit: nat)
    ensures
        page(entries, start, limit).len() <= limit,
        limit == 0 ==> page(entries, start, limit) == Seq::<ValidatorResponse>::empty(),
    decreases entries.len(),
{
    if entries.len() == 0 || limit == 0 {
    } else if start matches Some(s) && !str_precedes(s, entries[0].address@) {
        lemma_page_len(entries.drop_first(), start, limit);
    } else {
        lemma_page_len(entries.drop_first(), start, (limit - 1) as nat);
    }
}

/// The view of an optional string.
pub open spec fn start_of(start_after: Option<String>) -> Option<Seq<char>> {
    match start_after {
        Some(s) => Some(s@),
        None => None,
    }
}

pub fn query(ledger: &Ledger, msg: QueryMsg) -> (r: Result<QueryResponse, StdError>)
    requires
        ledger.wf(),
    ensures
        match msg {
            QueryMsg::Config {  } => r matches Ok(QueryResponse::Config(c)) && c == config_of(
                ledger.config,
            ),
            QueryMsg::Account { address } => match r {
                Ok(QueryResponse::Account(a)) => account_queried(*ledger, address, Ok(a)),
                Ok(_) => false,
                Err(e) => account_queried(*ledger, address, Err(e)),
            },
            QueryMsg::Validator { address } => match r {
                Ok(QueryResponse::Validator(v)) => validator_queried(*ledger, address@, Ok(v)),
                Ok(_) => false,
                Err(e) => validator_queried(*ledger, address@, Err(e)),
            },
            QueryMsg::ListValidators { start_after, limit } => r matches Ok(
                QueryResponse::ListValidators(l),
            ) && l.validators@ == page(ledger.validators@, start_of(start_after), page_size(limit)),
        },
{
    match msg {
        QueryMsg::Config {  } => match query_config(ledger) {
            Ok(c) => Ok(QueryResponse::Config(c)),
            Err(e) => Err(e),
        },
        QueryMsg::Account { address } => match query_account(ledger, address) {
            Ok(a) => Ok(QueryResponse::Account(a)),
            Err(e) => Err(e),
        },
        QueryMsg::Validator { address } => match query_validator(ledger, address) {
            Ok(v) => Ok(QueryResponse::Validator(v)),
            Err(e) => Err(e),
        },
        QueryMsg::ListValidators { start_after, limit } => match list_validators(
            ledger,
            start_after,
            limit,
        ) {
            Ok(l) => Ok(QueryResponse::ListValidators(l)),
            Err(e) => Err(e),
        },
    }
}

/// What a configuration shows to a query.
pub open spec fn config_of(config: Config) -> ConfigResponse {
    ConfigResponse {
        consumer: config.consumer,
        slasher: match config.slasher {
            Some(slasher) => Some(slasher.inner),
            None => None,
        },
    }
}

pub fn query_config(ledger: &Ledger) -> (r: Result<ConfigResponse, StdError>)
    ensures
        r matches Ok(c) && c == config_of(ledger.config),
{
    let slasher: Option<String> = match &ledger.config.slasher {
        Some(slasher) => Some(slasher.inner.clone()),
        None => None,
    };
    Ok(
        ConfigResponse {
            consumer: ConsumerInfo {
                connection_id: ledger.config.consumer.connection_id.clone(),
            },
            slasher,
        },
    )
}

/// Whether `delegator`'s position with this validator is worth more than
/// the tokens locked in it, so that no slashed amount exists.
pub open spec fn overdrawn(entry: ValidatorEntry, delegator: Seq<char>) -> bool {
    entry.stake_of(delegator) matches Some(stake) && stake.value(entry.validator) > stake.locked
}

/// What a position shows to a query: its value now, and what is missing of
/// the tokens locked.
pub open spec fn stake_info(address: String, val: Validator, stake: Stake) -> StakeInfo {
    StakeInfo {
        validator: address,
        tokens: stake.value(val) as u128,
        slashed: (stake.locked - stake.value(val)) as u128,
    }
}

/// The positions of `delegator`, in the order of `entries`.
pub open spec fn positions_of(entries: Seq<ValidatorEntry>, delegator: Seq<char>) -> Seq<StakeInfo>
    decreases entries.len(),
{
    if entries.len() == 0 {
        Seq::empty()
    } else {
        let entry = entries.last();
        positions_of(entries.drop_last(), delegator) + (match entry.stake_of(delegator) {
            Some(stake) => seq![stake_info(entry.address, entry.validator, stake)],
            None => Seq::empty(),
        })
    }
}

/// What the query for an account answers: the host's refusal of the
/// address; an overflow where a position is worth more than was locked in
/// it; else the account's positions in ascending order of the validator's
/// address.
pub open spec fn account_queried(
    ledger: Ledger,
    address: Result<Addr, StdError>,
    r: Result<AccountResponse, StdError>,
) -> bool {
    match address {
        Err(refusal) => r matches Err(e) && e == refusal,
        Ok(account) => if exists|i: int|
            0 <= i < ledger.validators@.len() && overdrawn(#[trigger] ledger.validators@[i], account@) {
            r matches Err(StdError::Overflow)
        } else {
            r matches Ok(response) && response.staked@ == positions_of(
                ledger.validators@,
                account@,
            )
        },
    }
}

pub fn query_account(ledger: &Ledger, address: Result<Addr, StdError>) -> (r: Result<
    AccountResponse,
    StdError,
>)
    requires
        ledger.wf(),
    ensures
        account_queried(*ledger, address, r),
{
    let account = match address {
        Ok(account) => account,
        Err(e) => { return Err(e); },
    };
    let mut staked: Vec<StakeInfo> = Vec::new();
    let mut i: usize = 0;
    while i < ledger.validators.len()
        invariant
            ledger.wf(),
            address == Ok::<Addr, StdError>(account),
            i <= ledger.validators.len(),
            forall|j: int| 0 <= j < i ==> !overdrawn(#[trigger] ledger.validators@[j], account@),
            staked@ == positions_of(ledger.validators@.take(i as int), account@),
        decreases ledger.validators.len() - i,
    {
        let entry = &ledger.validators[i];
        proof {
            assert(ledger.validators@.take(i + 1).drop_last() =~= ledger.validators@.take(
                i as int,
            ));
            assert(ledger.validators@.take(i + 1).last() == ledger.validators@[i as int]);
            assert(ledger.validators@[i as int].wf());
        }
        match entry.find(&account) {
            Some(k) => {
                proof {
                    entry.lemma_slot(k as int);
                    entry.lemma_held(k as int);
                }
                let stake: Stake = entry.positions[k].stake;
                let tokens: u128 = stake.current_value(&entry.validator);
                if tokens > stake.locked {
                    proof {
                        assert(overdrawn(ledger.validators@[i as int], account@));
                    }
                    return Err(StdError::overflow());
                }
                staked.push(
                    StakeInfo {
                        validator: entry.address.clone(),
                        tokens,
                        slashed: stake.locked - tokens,
                    },
                );
            },
            None => {},
        }
        i = i + 1;
    }
    proof {
        assert(ledger.validators@.take(i as int) =~= ledger.validators@);
    }
    Ok(AccountResponse { staked })
}

/// What the query for a validator answers: that nothing is found under
/// the address, or the validator registered there.
pub open spec fn validator_queried(
    ledger: Ledger,
    address: Seq<char>,
    r: Result<ValidatorResponse, StdError>,
) -> bool {
    match ledger.get_validator(address) {
        None => r matches Err(StdError::NotFound { kind }) && kind@ == "Validator"@,
        Some(val) => r matches Ok(response) && response.address@ == address && response.tokens
            == val.value() && response.status == val.status && response.multiplier
            == val.multiplier,
    }
}

pub fn query_validator(ledger: &Ledger, address: String) -> (r: Result<ValidatorResponse, StdError>)
    requires
        ledger.wf(),
    ensures
        validator_queried(*ledger, address@, r),
{
    match ledger.validator(address.as_str()) {
        Some(val) => {
            proof {
                let i = ledger.index_of(address@);
                assert(ledger.validators[i].wf());
                val.lemma_value_bounded();
            }
            Ok(build_response((address, val)))
        },
        None => Err(StdError::NotFound { kind: String::from_str("Validator") }),
    }
}

/// Lists validators in ascending order of their address: those after
/// `start_after` where it is given, and no more than the page size for
/// `limit`.
pub fn list_validators(ledger: &Ledger, start_after: Option<String>, limit: Option<u32>) -> (r:
    Result<ListValidatorsResponse, StdError>)
    requires
        ledger.wf(),
    ensures
        r matches Ok(response) && response.validators@ == page(
            ledger.validators@,
            start_of(start_after),
            page_size(limit),
        ),
        r matches Ok(response) && response.validators@.len() <= page_size(limit) <= MAX_LIMIT,
{
    let limit: u32 = match limit {
        None => DEFAULT_LIMIT,
        Some(n) => if n < MAX_LIMIT {
            n
        } else {
            MAX_LIMIT
        },
    };
    let limit: usize = limit as usize;
    let ghost start = start_of(start_after);
    let ghost all = ledger.validators@;
    let mut validators: Vec<ValidatorResponse> = Vec::new();
    let mut i: usize = 0;
    proof {
        assert(all.skip(0) =~= all);
        assert(validators@ + page(all, start, limit as nat) =~= page(all, start, limit as nat));
    }
    while i < ledger.validators.len() && validators.len() < limit
        invariant
            ledger.wf(),
            all == ledger.validators@,
            start == start_of(start_after),
            i <= ledger.validators.len(),
            validators.len() <= limit,
            validators@ + page(all.skip(i as int), start, (limit - validators.len()) as nat)
                == page(all, start, limit as nat),
        decreases ledger.validators.len() - i,
    {
        let entry = &ledger.validators[i];
        let listed: bool = match &start_after {
            Some(s) => comes_before(s.as_str(), entry.address.as_str()),
            None => true,
        };
        proof {
            assert(all.skip(i as int).drop_first() =~= all.skip(i + 1));
            assert(all.skip(i as int)[0] == all[i as int]);
            assert(all[i as int].wf());
        }
        if listed {
            let ghost rest = page(all.skip(i + 1), start, (limit - validators.len() - 1) as nat);
            let ghost shown = validators@;
            let response = build_response((entry.address.clone(), entry.validator));
            validators.push(response);
            proof {
                assert(shown + (seq![response] + rest) =~= shown.push(response) + rest);
            }
        }
        i = i + 1;
    }
    proof {
        lemma_page_len(all.skip(i as int), start, (limit - validators.len()) as nat);
        if i == ledger.validators.len() {
            assert(all.skip(i as int).len() == 0);
        }
        assert(validators@ + Seq::<ValidatorResponse>::empty() =~= validators@);
    }
    Ok(ListValidatorsResponse { validators })
}

/// What a validator shows to a query: its address, the value of its pool
/// after slashing, its status and its multiplier.
pub fn build_response(entry: (String, Validator)) -> (r: ValidatorResponse)
    requires
        entry.1.wf(),
    ensures
        r == response_of(entry.0, entry.1),
{
    let (address, val) = entry;
    ValidatorResponse {
        address,
        tokens: val.stake_value(),
        status: val.status,
        multiplier: val.multiplier,
    }
}


/// The entries stand in strictly ascending order of their address.
pub open spec fn in_order(entries: Seq<ValidatorEntry>) -> bool {
    forall|i: int, j: int|
        0 <= i < j < entries.len() ==> str_precedes(
            #[trigger] entries[i].address@,
            #[trigger] entries[j].address@,
        )
}

/// `address` is the address of one of `entries`, and comes after `start`
/// where one is given.
pub open spec fn listed_from(
    address: Seq<char>,
    entries: Seq<ValidatorEntry>,
    start: Option<Seq<char>>,
) -> bool {
    exists|j: int|
        0 <= j < entries.len() && #[trigger] entries[j].address@ == address && (start matches Some(
            s,
        ) ==> str_precedes(s, address))
}

/// A page of entries in ascending order is in ascending order itself, and
/// shows only validators that are registered and come after the start.
pub proof fn lemma_page_ascending(
    entries: Seq<ValidatorEntry>,
    start: Option<Seq<char>>,
    limit: nat,
)
    requires
        in_order(entries),
    ensures
        forall|i: int|
            0 <= i < page(entries, start, limit).len() ==> listed_from(
                #[trigger] page(entries, start, limit)[i].address@,
                entries,
                start,
            ),
        forall|i: int, j: int|
            0 <= i < j < page(entries, start, limit).len() ==> str_precedes(
                #[trigger] page(entries, start, limit)[i].address@,
                #[trigger] page(entries, start, limit)[j].address@,
            ),
    decreases entries.len(),
{
    let p = page(entries, start, limit);
    if entries.len() == 0 || limit == 0 {
    } else {
        let rest = entries.drop_first();
        assert forall|i: int, j: int| 0 <= i < j < rest.len() implies str_precedes(
            #[trigger] rest[i].address@,
            #[trigger] rest[j].address@,
        ) by {
            assert(rest[i] == entries[i + 1] && rest[j] == entries[j + 1]);
        }
        let skipped = start matches Some(s) && !str_precedes(s, entries[0].address@);
        let q = if skipped {
            page(rest, start, limit)
        } else {
            page(rest, start, (limit - 1) as nat)
        };
        if skipped {
            lemma_page_ascending(rest, start, limit);
        } else {
            lemma_page_ascending(rest, start, (limit - 1) as nat);
        }
        assert forall|i: int| 0 <= i < q.len() implies listed_from(
            #[trigger] q[i].address@,
            entries,
            start,
        ) && str_precedes(entries[0].address@, q[i].address@) by {
            assert(listed_from(q[i].address@, rest, start));
            let j = choose|j: int|
                0 <= j < rest.len() && #[trigger] rest[j].address@ == q[i].address@ && (
                start matches Some(s) ==> str_precedes(s, q[i].address@));
            assert(rest[j] == entries[j + 1]);
            assert(entries[j + 1].address@ == q[i].address@);
        }
        if skipped {
            assert(p == q);
        } else {
            assert(p[0].address@ == entries[0].address@);
            assert(listed_from(p[0].address@, entries, start));
            assert forall|i: int| 0 <= i < p.len() implies listed_from(
                #[trigger] p[i].address@,
                entries,
                start,
            ) by {
                if i > 0 {
                    assert(p[i] == q[i - 1]);
                }
            }
            assert forall|i: int, j: int| 0 <= i < j < p.len() implies str_precedes(
                #[trigger] p[i].address@,
                #[trigger] p[j].address@,
            ) by {
                assert(p[j] == q[j - 1]);
                if i > 0 {
                    assert(p[i] == q[i - 1]);
                }
            }
        }
    }
}

/// The positions of an account come in ascending order of the validator's
/// address, one for each validator at most.
pub proof fn lemma_positions_ascending(entries: Seq<ValidatorEntry>, delegator: Seq<char>)
    requires
        in_order(entries),
    ensures
        forall|i: int|
            0 <= i < positions_of(entries, delegator).len() ==> listed_from(
                #[trigger] positions_of(entries, delegator)[i].validator@,
                entries,
                None,
            ),
        forall|i: int, j: int|
            0 <= i < j < positions_of(entries, delegator).len() ==> str_precedes(
                #[trigger] positions_of(entries, delegator)[i].validator@,
                #[trigger] positions_of(entries, delegator)[j].validator@,
            ),
    decreases entries.len(),
{
    let p = positions_of(entries, delegator);
    if entries.len() > 0 {
        let init = entries.drop_last();
        let n = entries.len() - 1;
        let q = positions_of(init, delegator);
        assert forall|i: int, j: int| 0 <= i < j < init.len() implies str_precedes(
            #[trigger] init[i].address@,
            #[trigger] init[j].address@,
        ) by {
            assert(init[i] == entries[i] && init[j] == entries[j]);
        }
        lemma_positions_ascending(init, delegator);
        assert forall|i: int| 0 <= i < q.len() implies listed_from(
            #[trigger] q[i].validator@,
            entries,
            None,
        ) && str_precedes(q[i].validator@, entries[n].address@) by {
            assert(listed_from(q[i].validator@, init, None));
            let j = choose|j: int|
                0 <= j < init.len() && #[trigger] init[j].address@ == q[i].validator@;
            assert(init[j] == entries[j]);
            assert(entries[j].address@ == q[i].validator@);
        }
        assert forall|i: int| 0 <= i < p.len() implies listed_from(
            #[trigger] p[i].validator@,
            entries,
            None,
        ) by {
            if i < q.len() {
                assert(p[i] == q[i]);
            } else {
                assert(p[i].validator@ == entries[n].address@);
            }
        }
        assert forall|i: int, j: int| 0 <= i < j < p.len() implies str_precedes(
            #[trigger] p[i].validator@,
            #[trigger] p[j].validator@,
        ) by {
            assert(p[i] == q[i]);
            if j < q.len() {
                assert(p[j] == q[j]);
            } else {
                assert(p[j].validator@ == entries[n].address@);
            }
        }
    }
}

} // verus!
