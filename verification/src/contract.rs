use crate::crypto::signed_digest;
use crate::error::ContractError;
use crate::ledger::{
    all_zero, apply_coins, apply_withdrawals, coins_view, denom_total, jobinfos_view, Ledger,
};
use crate::msg::{Coin, ConsensusMsg, InstantiateMsg, JobId, JobInfo, QueryMsg, QueryResult};
use crate::registry::{
    addr_is_trusted, addr_listed, addrs_sorted, build_valset, sum_stakes, vals_sorted,
    vals_unique, vals_view, valset_addrs, valset_keys, valset_view,
};
use crate::validation::{all_decodable, is_signed, quorum, sigs_view, Signature, ValKey, ValKeyV};
use vstd::prelude::*;

verus! {

/// The whole persisted state of the escrow: the validator registry, the
/// trusted addresses derived from it, the consumed message ids, and the
/// balance ledger. Every operation goes through the methods below; a failed
/// operation leaves the state exactly as it was.
pub struct Contract {
    validators: Vec<ValKey>,
    trusted_addresses: Vec<String>,
    used_message_ids: Vec<String>,
    ledger: Ledger,
}

impl Contract {
    /// The stored validator entries, sorted ascending by public key.
    pub closed spec fn validators_seq(&self) -> Seq<ValKeyV> {
        vals_view(self.validators@)
    }

    /// The trusted addresses, sorted strictly ascending.
    pub closed spec fn trusted_seq(&self) -> Seq<Seq<char>> {
        self.trusted_addresses.deep_view()
    }

    /// The consumed message ids, sorted strictly ascending.
    pub closed spec fn used_seq(&self) -> Seq<Seq<char>> {
        self.used_message_ids.deep_view()
    }

    /// The balance ledger.
    pub closed spec fn ledger_state(&self) -> Ledger {
        self.ledger
    }

    /// Well-formedness: the registry is sorted with a total stake that fits
    /// an unsigned 128-bit integer, the trusted and used lists are strictly
    /// sorted, and the ledger keeps its two indexes consistent.
    pub open spec fn wf(&self) -> bool {
        &&& vals_sorted(self.validators_seq())
        &&& sum_stakes(self.validators_seq()) <= u128::MAX
        &&& addrs_sorted(self.trusted_seq())
        &&& addrs_sorted(self.used_seq())
        &&& self.ledger_state().wf()
    }

    /// Create the contract with its initial validator set. An empty set is
    /// legal: it locks out every future privileged message.
    pub fn instantiate(msg: &InstantiateMsg) -> (r: Result<Contract, ContractError>)
        ensures
            (r is Err) == (sum_stakes(valset_keys(valset_view(msg.valset@))) > u128::MAX),
            r matches Err(e) ==> e == ContractError::ArithmeticOverflow,
            r matches Ok(c) ==> {
                &&& c.wf()
                &&& c.validators_seq().to_multiset() == valset_keys(
                    valset_view(msg.valset@),
                ).to_multiset()
                &&& forall|x: Seq<char>|
                    addr_listed(c.trusted_seq(), x) == valset_addrs(
                        valset_view(msg.valset@),
                    ).contains(x)
                &&& c.used_seq() == Seq::<Seq<char>>::empty()
                &&& c.ledger_state().balances() == Map::<
                    (Seq<char>, Seq<char>, Seq<char>),
                    u128,
                >::empty()
            },
    {
        let (validators, trusted_addresses) = match build_valset(&msg.valset) {
            Ok(pair) => pair,
            Err(e) => {
                return Err(e);
            },
        };
        let c = Contract {
            validators,
            trusted_addresses,
            used_message_ids: Vec::new(),
            ledger: Ledger::new(),
        };
        proof {
            assert(c.used_seq() =~= Seq::<Seq<char>>::empty());
        }
        Ok(c)
    }

    /// Whether an address may submit privileged messages.
    pub fn is_trusted(&self, address: &str) -> (r: bool)
        requires
            self.wf(),
        ensures
            r == addr_listed(self.trusted_seq(), address@),
    {
        addr_is_trusted(&self.trusted_addresses, address)
    }

    /// Whether a message id has already been consumed.
    pub fn has_been_used(&self, message_id: &str) -> (r: bool)
        requires
            self.wf(),
        ensures
            r == addr_listed(self.used_seq(), message_id@),
    {
        addr_is_trusted(&self.used_message_ids, message_id)
    }

    /// The privileged-message pipeline: reject a replayed id, an untrusted
    /// sender, and a signature set short of quorum, in that order; then mark
    /// the id consumed and apply the decoded action. An untrusted sender is
    /// never authorized, whatever its signatures. A failed request leaves
    /// every part of the state unchanged, so its message id stays usable.
    pub fn execute_consensus(
        &mut self,
        sender: &str,
        message_id: &str,
        raw_json: &str,
        signatures: &Vec<Signature>,
        msg: &ConsensusMsg,
    ) -> (r: Result<(), ContractError>)
        requires
            old(self).wf(),
        ensures
            final(self).wf(),
            addr_listed(old(self).used_seq(), message_id@) ==> r == Err::<(), ContractError>(
                ContractError::Replay,
            ),
            !addr_listed(old(self).used_seq(), message_id@) && !addr_listed(
                old(self).trusted_seq(),
                sender@,
            ) ==> r == Err::<(), ContractError>(ContractError::UntrustedSender),
            r is Ok ==> addr_listed(old(self).trusted_seq(), sender@) && !addr_listed(
                old(self).used_seq(),
                message_id@,
            ),
            vals_unique(old(self).validators_seq()) ==> (r is Ok ==> quorum(
                sigs_view(signatures@),
                old(self).validators_seq(),
                signed_digest(message_id@, raw_json@),
            )),
            !addr_listed(old(self).used_seq(), message_id@) && addr_listed(
                old(self).trusted_seq(),
                sender@,
            ) && vals_unique(old(self).validators_seq()) && all_decodable(
                sigs_view(signatures@),
                old(self).validators_seq(),
                signed_digest(message_id@, raw_json@),
            ) && !quorum(
                sigs_view(signatures@),
                old(self).validators_seq(),
                signed_digest(message_id@, raw_json@),
            ) ==> r == Err::<(), ContractError>(ContractError::QuorumNotMet),
            r is Ok ==> forall|x: Seq<char>|
                addr_listed(final(self).used_seq(), x) == (addr_listed(old(self).used_seq(), x)
                    || x == message_id@),
            r is Ok ==> final(self).ledger_state() == old(self).ledger_state(),
            r is Ok && msg is Stub ==> final(self).validators_seq() == old(self).validators_seq()
                && final(self).trusted_seq() == old(self).trusted_seq(),
            r is Ok ==> (msg matches ConsensusMsg::UpdateValset { valset }
                ==> final(self).validators_seq().to_multiset() == valset_keys(
                valset_view(valset@),
            ).to_multiset()
                && (forall|x: Seq<char>|
                addr_listed(final(self).trusted_seq(), x) == valset_addrs(
                    valset_view(valset@),
                ).contains(x))),
            r is Err ==> final(self).used_seq() == old(self).used_seq()
                && final(self).validators_seq() == old(self).validators_seq()
                && final(self).trusted_seq() == old(self).trusted_seq()
                && final(self).ledger_state() == old(self).ledger_state(),
            (!addr_listed(old(self).used_seq(), message_id@) && addr_listed(
                old(self).trusted_seq(),
                sender@,
            ) && vals_unique(old(self).validators_seq()) && all_decodable(
                sigs_view(signatures@),
                old(self).validators_seq(),
                signed_digest(message_id@, raw_json@),
            ) && quorum(
                sigs_view(signatures@),
                old(self).validators_seq(),
                signed_digest(message_id@, raw_json@),
            ) && (msg is Stub || (msg matches ConsensusMsg::UpdateValset { valset } && sum_stakes(
                valset_keys(valset_view(valset@)),
            ) <= u128::MAX))) ==> r is Ok,
            r matches Err(e) ==> (e == ContractError::Replay || e == ContractError::UntrustedSender
                || e == ContractError::QuorumNotMet || e == ContractError::MalformedSignature || e
                == ContractError::ArithmeticOverflow),
            (msg matches ConsensusMsg::UpdateValset { valset } && sum_stakes(
                valset_keys(valset_view(valset@)),
            ) > u128::MAX && !addr_listed(old(self).used_seq(), message_id@) && addr_listed(
                old(self).trusted_seq(),
                sender@,
            )) ==> r != Ok::<(), ContractError>(()),
    {
        if addr_is_trusted(&self.used_message_ids, message_id) {
            return Err(ContractError::Replay);
        }
        if !addr_is_trusted(&self.trusted_addresses, sender) {
            return Err(ContractError::UntrustedSender);
        }
        match is_signed(&self.validators, message_id, raw_json, signatures) {
            Ok(true) => {},
            Ok(false) => {
                return Err(ContractError::QuorumNotMet);
            },
            Err(e) => {
                return Err(e);
            },
        }
        let new_sets: Option<(Vec<ValKey>, Vec<String>)> = match msg {
            ConsensusMsg::Stub {} => None,
            ConsensusMsg::UpdateValset { valset } => {
                match build_valset(valset) {
                    Ok(pair) => Some(pair),
                    Err(e) => {
                        return Err(e);
                    },
                }
            },
        };
        crate::registry::insert_addr(&mut self.used_message_ids, message_id.to_owned());
        match new_sets {
            None => {},
            Some((validators, trusted_addresses)) => {
                self.validators = validators;
                self.trusted_addresses = trusted_addresses;
            },
        }
        Ok(())
    }

    /// Add the attached coins to the sender's balances under a job.
    pub fn execute_deposit(&mut self, sender: &str, funds: &Vec<Coin>, job_id: &JobId) -> (r:
        Result<(), ContractError>)
        requires
            old(self).wf(),
        ensures
            final(self).wf(),
            all_zero(coins_view(funds@)) ==> r == Err::<(), ContractError>(
                ContractError::ZeroDeposit,
            ),
            !all_zero(coins_view(funds@)) && apply_coins(
                old(self).ledger_state().balances(),
                sender@,
                job_id@,
                coins_view(funds@),
            ) is None ==> r == Err::<(), ContractError>(ContractError::ArithmeticOverflow),
            !all_zero(coins_view(funds@)) && apply_coins(
                old(self).ledger_state().balances(),
                sender@,
                job_id@,
                coins_view(funds@),
            ) is Some ==> r is Ok,
            r is Ok ==> Some(final(self).ledger_state().balances()) == apply_coins(
                old(self).ledger_state().balances(),
                sender@,
                job_id@,
                coins_view(funds@),
            ),
            r is Err ==> final(self).ledger_state() == old(self).ledger_state(),
            final(self).validators_seq() == old(self).validators_seq(),
            final(self).trusted_seq() == old(self).trusted_seq(),
            final(self).used_seq() == old(self).used_seq(),
    {
        self.ledger.deposit(sender, job_id, funds)
    }

    /// Withdraw the listed amounts from the sender's balances, returning the
    /// outbound line items to transfer back to the sender.
    pub fn execute_withdraw(&mut self, sender: &str, withdrawals: &Vec<JobInfo>) -> (r: Result<
        Vec<Coin>,
        ContractError,
    >)
        requires
            old(self).wf(),
        ensures
            final(self).wf(),
            withdrawals@.len() == 0 ==> r == Err::<Vec<Coin>, ContractError>(
                ContractError::EmptyWithdrawal,
            ),
            withdrawals@.len() > 0 && apply_withdrawals(
                old(self).ledger_state().balances(),
                sender@,
                jobinfos_view(withdrawals@),
            ) is None ==> r == Err::<Vec<Coin>, ContractError>(ContractError::InsufficientFunds),
            withdrawals@.len() > 0 && apply_withdrawals(
                old(self).ledger_state().balances(),
                sender@,
                jobinfos_view(withdrawals@),
            ) is Some ==> r is Ok,
            r matches Ok(coins) ==> {
                &&& Some(final(self).ledger_state().balances()) == apply_withdrawals(
                    old(self).ledger_state().balances(),
                    sender@,
                    jobinfos_view(withdrawals@),
                )
                &&& coins@.len() == withdrawals@.len()
                &&& forall|n: int|
                    0 <= n < coins@.len() ==> (#[trigger] coins_view(coins@)[n]).denom
                        == jobinfos_view(withdrawals@)[n].coin.denom && coins_view(coins@)[n].amount
                        == jobinfos_view(withdrawals@)[n].coin.amount
            },
            r is Ok ==> forall|d: Seq<char>|
                #[trigger] denom_total(final(self).ledger_state().entries_seq(), d) == denom_total(
                    old(self).ledger_state().entries_seq(),
                    d,
                ) - crate::ledger::requested_total(jobinfos_view(withdrawals@), d),
            r is Err ==> final(self).ledger_state() == old(self).ledger_state(),
            final(self).validators_seq() == old(self).validators_seq(),
            final(self).trusted_seq() == old(self).trusted_seq(),
            final(self).used_seq() == old(self).used_seq(),
    {
        self.ledger.withdraw(sender, withdrawals)
    }

    /// Fetch the coins associated to every job under the given address.
    pub fn query_address_info(&self, address: &str) -> (r: Vec<JobInfo>)
        requires
            self.wf(),
        ensures
            crate::ledger::deposits_answer(self.ledger_state(), address@, jobinfos_view(r@)),
    {
        self.ledger.deposits_of(address)
    }

    /// Fetch the funds associated with a given job, summed by denomination.
    pub fn query_job_info(&self, job_id: &JobId) -> (r: Result<Vec<Coin>, ContractError>)
        requires
            self.wf(),
        ensures
            r matches Ok(coins) ==> crate::ledger::balances_answer(
                self.ledger_state(),
                job_id@,
                coins_view(coins@),
            ),
            (r is Err) == crate::ledger::job_total_overflows(self.ledger_state(), job_id@),
            r matches Err(e) ==> e == ContractError::ArithmeticOverflow,
    {
        self.ledger.balances_of(job_id)
    }

    /// Answer a read-only request.
    pub fn query(&self, msg: &QueryMsg) -> (r: Result<QueryResult, ContractError>)
        requires
            self.wf(),
        ensures
            msg matches QueryMsg::GetDepositInfo { address } ==> r matches Ok(qr) && qr matches
                QueryResult::Jobs(v) && crate::ledger::deposits_answer(
                self.ledger_state(),
                address@,
                jobinfos_view(v@),
            ),
            msg matches QueryMsg::GetJobInfo { job_id } ==> {
                &&& (r is Err) == crate::ledger::job_total_overflows(
                    self.ledger_state(),
                    job_id@,
                )
                &&& (r matches Ok(qr) ==> qr matches QueryResult::Balance(v)
                    && crate::ledger::balances_answer(
                    self.ledger_state(),
                    job_id@,
                    coins_view(v@),
                ))
                &&& (r matches Err(e) ==> e == ContractError::ArithmeticOverflow)
            },
    {
        match msg {
            QueryMsg::GetDepositInfo { address } => {
                Ok(QueryResult::Jobs(self.query_address_info(address.as_str())))
            },
            QueryMsg::GetJobInfo { job_id } => {
                match self.query_job_info(job_id) {
                    Ok(coins) => Ok(QueryResult::Balance(coins)),
                    Err(e) => Err(e),
                }
            },
        }
    }
}

} // verus!
