//! Verification of incoming transactions.
//!
//! A transaction passes, in this order: the window in which its block or
//! time has to lie; decoding; the chain id, the gas and the gas price; the
//! sender's quota in the store; the sender's certification; the sender's
//! balance and nonce. The first check that fails rejects it. The certifier
//! and the chain are asked outside: what they answered comes in as plain
//! values, and every step says what is to be asked next.

use crate::blockchain::{Blockchain, BlockchainView};
use crate::clock::now_seconds;
use crate::database::{Database, DatabaseView};
use crate::decode::{decode, decodes};
use crate::options::Options;
use crate::types::{
    Action, Address, BlockNumber, SignedTransaction, Transaction, TransactionView,
};
use crate::uint::{max_value, U256};
use vstd::prelude::*;

verus! {

/// On which side of the schedule window a number lies. The window starts
/// after its lower limit and ends with its upper limit.
#[derive(Debug, Clone, Copy, PartialEq, Eq)]
pub enum Bound {
    /// The number is not above the lower limit.
    TooLow { number: u64, limit: u128 },
    /// The number is above the upper limit.
    TooHigh { number: u64, limit: u128 },
}

/// Why a transaction is rejected.
#[derive(Debug, Clone, PartialEq)]
pub enum Error {
    /// The bytes could not be decoded.
    InvalidRlp(String),
    /// The signature, the chain id or an answer of the chain is not acceptable.
    InvalidTransaction(String),
    /// The block number lies outside the schedule window.
    InvalidBlockNumber(Bound),
    /// The time lies outside the schedule window.
    InvalidTimestamp(Bound),
    /// The gas is below what the transaction needs at least; that much is given.
    GasTooLow(u128),
    /// The gas is above the highest gas accepted, which is given.
    GasTooHigh(u64),
    /// The gas price is below the lowest price accepted, which is given.
    GasPriceTooLow(u64),
    /// The sender has as many scheduled transactions as it may have.
    SenderQuotaExceeded,
    /// The sender is not certified.
    NotCertified,
    /// The sender's balance does not cover value and gas.
    InsufficientBalance { required: U256, got: U256 },
    /// The nonce does not follow on the sender's nonce.
    InvalidNonce { required: U256, got: U256 },
}

/// An [`Error`] as a plain value.
pub enum ErrorView {
    InvalidRlp(Seq<char>),
    InvalidTransaction(Seq<char>),
    InvalidBlockNumber(Bound),
    InvalidTimestamp(Bound),
    GasTooLow(nat),
    GasTooHigh(nat),
    GasPriceTooLow(nat),
    SenderQuotaExceeded,
    NotCertified,
    InsufficientBalance { required: nat, got: nat },
    InvalidNonce { required: nat, got: nat },
}

impl View for Error {
    type V = ErrorView;

    open spec fn view(&self) -> ErrorView {
        match *self {
            Error::InvalidRlp(text) => ErrorView::InvalidRlp(text@),
            Error::InvalidTransaction(text) => ErrorView::InvalidTransaction(text@),
            Error::InvalidBlockNumber(bound) => ErrorView::InvalidBlockNumber(bound),
            Error::InvalidTimestamp(bound) => ErrorView::InvalidTimestamp(bound),
            Error::GasTooLow(required) => ErrorView::GasTooLow(required as nat),
            Error::GasTooHigh(maximal) => ErrorView::GasTooHigh(maximal as nat),
            Error::GasPriceTooLow(required) => ErrorView::GasPriceTooLow(required as nat),
            Error::SenderQuotaExceeded => ErrorView::SenderQuotaExceeded,
            Error::NotCertified => ErrorView::NotCertified,
            Error::InsufficientBalance { required, got } => ErrorView::InsufficientBalance {
                required: required@,
                got: got@,
            },
            Error::InvalidNonce { required, got } => ErrorView::InvalidNonce {
                required: required@,
                got: got@,
            },
        }
    }
}

/// Where `num` lies in the window that starts after `base + min` and ends
/// with `base + max`: none when it lies inside.
pub open spec fn outside(base: u64, min: u64, max: u64, num: u64) -> Option<Bound> {
    if num <= base + min {
        Some(Bound::TooLow { number: num, limit: (base + min) as u128 })
    } else if num > base + max {
        Some(Bound::TooHigh { number: num, limit: (base + max) as u128 })
    } else {
        None
    }
}

/// Where `num` lies in the schedule window; see [`outside`].
pub fn check_window(base: u64, min: u64, max: u64, num: u64) -> (fault: Option<Bound>)
    ensures
        fault == outside(base, min, max, num),
{
    let low: u128 = base as u128 + min as u128;
    let high: u128 = base as u128 + max as u128;
    if num as u128 <= low {
        Some(Bound::TooLow { number: num, limit: low })
    } else if num as u128 > high {
        Some(Bound::TooHigh { number: num, limit: high })
    } else {
        None
    }
}

/// The gas that the bytes of a transaction's data cost: 4 for each zero
/// byte, 68 for every other.
pub open spec fn data_gas(data: Seq<u8>) -> nat
    decreases data.len(),
{
    if data.len() == 0 {
        0
    } else {
        data_gas(data.drop_last()) + if data.last() == 0 {
            4nat
        } else {
            68nat
        }
    }
}

/// The gas that a transaction needs at least: 53000 to make a contract,
/// 21000 otherwise, and the gas of its data.
pub open spec fn spec_minimal_gas(tx: SignedTransaction) -> nat {
    (if tx.action is Create {
        53_000nat
    } else {
        21_000nat
    }) + data_gas(tx.data@)
}

/// The gas that a transaction needs at least.
pub fn minimal_gas(tx: &SignedTransaction) -> (gas: u128)
    ensures
        gas == spec_minimal_gas(*tx),
{
    let is_create = match tx.action {
        Action::Create => true,
        Action::Call(_) => false,
    };
    let mut gas: u128 = if is_create {
        53_000
    } else {
        21_000
    };
    let ghost base = gas;
    let mut i: usize = 0;
    assert(tx.data@.take(0) =~= Seq::<u8>::empty());
    while i < tx.data.len()
        invariant
            i <= tx.data@.len(),
            base <= 53_000,
            gas == base + data_gas(tx.data@.take(i as int)),
            gas <= base + 68 * i,
        decreases tx.data@.len() - i,
    {
        proof {
            assert(tx.data@.take(i + 1).drop_last() =~= tx.data@.take(i as int));
            assert(tx.data@.take(i + 1).last() == tx.data@[i as int]);
        }
        gas = gas + if tx.data[i] == 0 {
            4
        } else {
            68
        };
        i += 1;
    }
    assert(tx.data@.take(tx.data@.len() as int) =~= tx.data@);
    gas
}

/// What is wrong with a decoded transaction by itself, if anything: the
/// chain id, where it was signed for one, has to be that of the options; the
/// gas has to be at least what the transaction needs and at most what the
/// options allow; the gas price has to be at least that of the options.
pub open spec fn basic_fault(tx: SignedTransaction, options: Options) -> Option<ErrorView> {
    if tx.chain_id is Some && tx.chain_id->0 != options.chain_id {
        Some(ErrorView::InvalidTransaction("Invalid chain id."@))
    } else if tx.gas@ < spec_minimal_gas(tx) {
        Some(ErrorView::GasTooLow(spec_minimal_gas(tx)))
    } else if tx.gas@ > options.max_gas {
        Some(ErrorView::GasTooHigh(options.max_gas as nat))
    } else if tx.gas_price@ < options.min_gas_price {
        Some(ErrorView::GasPriceTooLow(options.min_gas_price as nat))
    } else {
        None
    }
}

/// What a transaction costs its sender at most: the value and, for every
/// unit of gas, the gas price; no more than 256 bits hold.
pub open spec fn required_balance(tx: SignedTransaction) -> nat {
    let fee = if tx.gas@ * tx.gas_price@ > max_value() {
        max_value()
    } else {
        tx.gas@ * tx.gas_price@
    };
    if tx.value@ + fee > max_value() {
        max_value()
    } else {
        tx.value@ + fee
    }
}

/// What is wrong with a transaction given the balance and the nonce of its
/// sender, if anything: the balance has to cover what the transaction costs
/// at most, and the nonce has to be the sender's, or, where the nonce is not
/// held strictly, no earlier one.
pub open spec fn economic_fault(tx: SignedTransaction, balance: nat, nonce: nat, strict: bool)
    -> Option<ErrorView> {
    if balance < required_balance(tx) {
        Some(ErrorView::InsufficientBalance { required: required_balance(tx), got: balance })
    } else if (strict && tx.nonce@ != nonce) || (!strict && tx.nonce@ < nonce) {
        Some(ErrorView::InvalidNonce { required: nonce, got: tx.nonce@ })
    } else {
        None
    }
}

/// What came of decoding the bytes of a transaction.
#[derive(Debug)]
pub enum Decoded {
    /// The bytes are no encoded transaction; why not.
    InvalidRlp(String),
    /// The signature gives no sender; why not.
    InvalidSignature(String),
    /// The transaction and its sender.
    Valid(SignedTransaction),
}

/// Verify some basics about the transaction: that it was decoded, and what
/// [`basic_fault`] asks of it.
pub fn verify_transaction(decoded: Decoded, options: &Options) -> (verified: Result<
    SignedTransaction,
    Error,
>)
    ensures
        match verified {
            Ok(tx) => decoded == Decoded::Valid(tx) && basic_fault(tx, *options) is None,
            Err(error) => match decoded {
                Decoded::InvalidRlp(text) => error@ == ErrorView::InvalidRlp(text@),
                Decoded::InvalidSignature(text) => error@ == ErrorView::InvalidTransaction(text@),
                Decoded::Valid(tx) => basic_fault(tx, *options) == Some(error@),
            },
        },
{
    let tx = match decoded {
        Decoded::InvalidRlp(text) => {
            return Err(Error::InvalidRlp(text));
        },
        Decoded::InvalidSignature(text) => {
            return Err(Error::InvalidTransaction(text));
        },
        Decoded::Valid(tx) => tx,
    };
    match tx.chain_id {
        Some(id) => {
            if id != options.chain_id {
                return Err(Error::InvalidTransaction(String::from_str("Invalid chain id.")));
            }
        },
        None => {},
    }
    // Validate basic gas
    let minimal = minimal_gas(&tx);
    if tx.gas.lt(&U256::from_u128(minimal)) {
        return Err(Error::GasTooLow(minimal));
    }
    // Validate maximal gas
    if U256::from_u64(options.max_gas).lt(&tx.gas) {
        return Err(Error::GasTooHigh(options.max_gas));
    }
    // Validate gas price
    if tx.gas_price.lt(&U256::from_u64(options.min_gas_price)) {
        return Err(Error::GasPriceTooLow(options.min_gas_price));
    }
    Ok(tx)
}

/// Validate balance and nonce; see [`economic_fault`].
pub fn verify_economics(tx: &SignedTransaction, balance: U256, nonce: U256, strict_nonce: bool)
    -> (verified: Result<(), Error>)
    ensures
        match verified {
            Ok(_) => economic_fault(*tx, balance@, nonce@, strict_nonce) is None,
            Err(error) => economic_fault(*tx, balance@, nonce@, strict_nonce) == Some(error@),
        },
{
    let required = tx.value.saturating_add(tx.gas.saturating_mul(tx.gas_price));
    if balance.lt(&required) {
        return Err(Error::InsufficientBalance { required, got: balance });
    }
    let wrong = if strict_nonce {
        !tx.nonce.is(&nonce)
    } else {
        tx.nonce.lt(&nonce)
    };
    if wrong {
        return Err(Error::InvalidNonce { required: nonce, got: tx.nonce });
    }
    Ok(())
}

/// What conditions a verifier checks.
#[derive(Debug, Clone, Copy, PartialEq, Eq)]
pub enum VerifierMode {
    /// Block numbers.
    Block,
    /// Times.
    Timestamp,
}

/// A number that lies in the schedule window. Only a verifier makes one.
#[derive(Debug)]
pub struct Scheduled {
    num: u64,
}

impl View for Scheduled {
    type V = u64;

    closed spec fn view(&self) -> u64 {
        self.num
    }
}

/// A transaction that waits for an answer of the chain. Only a verifier
/// makes one.
#[derive(Debug)]
pub struct Pending {
    num: u64,
    asked_at: BlockNumber,
    transaction: SignedTransaction,
}

/// A [`Pending`] as a plain value.
pub struct PendingView {
    /// The block number or time that the transaction is to be scheduled for.
    pub num: u64,
    /// The latest block when the question was put.
    pub asked_at: BlockNumber,
    /// The transaction.
    pub transaction: SignedTransaction,
}

impl View for Pending {
    type V = PendingView;

    closed spec fn view(&self) -> PendingView {
        PendingView { num: self.num, asked_at: self.asked_at, transaction: self.transaction }
    }
}

impl Pending {
    /// The sender that the chain is asked about.
    pub fn sender(&self) -> (sender: &Address)
        ensures
            *sender == self@.transaction.sender,
    {
        &self.transaction.sender
    }
}

/// What is to be done next with a transaction under verification.
#[derive(Debug)]
pub enum Step {
    /// Ask the certifier whether the sender is certified, and hand the answer
    /// to [`Verifier::certified`].
    AskCertification(Pending),
    /// Ask the chain for the balance and the nonce of the sender, and hand
    /// the answer to [`Verifier::funded`].
    AskBalanceAndNonce(Pending),
    /// The transaction is verified: store it under this number.
    Accepted(u64, Transaction),
    /// The transaction is rejected.
    Rejected(Error),
}

/// A [`Step`] as a plain value.
pub enum StepView {
    AskCertification(PendingView),
    AskBalanceAndNonce(PendingView),
    Accepted(u64, TransactionView),
    Rejected(ErrorView),
}

impl View for Step {
    type V = StepView;

    open spec fn view(&self) -> StepView {
        match *self {
            Step::AskCertification(pending) => StepView::AskCertification(pending@),
            Step::AskBalanceAndNonce(pending) => StepView::AskBalanceAndNonce(pending@),
            Step::Accepted(num, transaction) => StepView::Accepted(num, transaction@),
            Step::Rejected(error) => StepView::Rejected(error@),
        }
    }
}

/// The last check: with the balance and the nonce of the sender known, the
/// transaction is accepted or rejected; where they are not known, they are
/// asked for.
pub open spec fn fund(options: Options, pending: PendingView, known: Option<(U256, U256)>)
    -> StepView {
    match known {
        None => StepView::AskBalanceAndNonce(pending),
        Some((balance, nonce)) => match economic_fault(
            pending.transaction,
            balance@,
            nonce@,
            options.strict_nonce,
        ) {
            Some(fault) => StepView::Rejected(fault),
            None => StepView::Accepted(pending.num, Transaction::of(pending.transaction)@),
        },
    }
}

/// The check of the certification and what follows it: a sender known not to
/// be certified is rejected; where nothing is known, the certifier is asked.
pub open spec fn certify(
    options: Options,
    pending: PendingView,
    certified: Option<bool>,
    known: Option<(U256, U256)>,
) -> StepView {
    match certified {
        None => StepView::AskCertification(pending),
        Some(false) => StepView::Rejected(ErrorView::NotCertified),
        Some(true) => fund(options, pending, known),
    }
}

/// The checks that follow the schedule window, as far as they go without
/// asking the chain.
pub open spec fn begin(
    options: Options,
    num: u64,
    decoded: Decoded,
    blockchain: BlockchainView,
    database: DatabaseView,
) -> StepView {
    match decoded {
        Decoded::InvalidRlp(text) => StepView::Rejected(ErrorView::InvalidRlp(text@)),
        Decoded::InvalidSignature(text) => StepView::Rejected(
            ErrorView::InvalidTransaction(text@),
        ),
        Decoded::Valid(tx) => match basic_fault(tx, options) {
            Some(fault) => StepView::Rejected(fault),
            None => if database.senders.count(tx.sender@) >= database.max_txs_per_sender {
                StepView::Rejected(ErrorView::SenderQuotaExceeded)
            } else {
                certify(
                    options,
                    PendingView { num, asked_at: blockchain.latest_block, transaction: tx },
                    blockchain.is_certified(tx.sender@),
                    blockchain.balance_and_nonce(tx.sender@),
                )
            },
        },
    }
}

/// The fault that lying outside the schedule window is, for block numbers
/// and for times.
pub open spec fn window_fault(mode: VerifierMode, bound: Bound) -> ErrorView {
    match mode {
        VerifierMode::Block => ErrorView::InvalidBlockNumber(bound),
        VerifierMode::Timestamp => ErrorView::InvalidTimestamp(bound),
    }
}

/// This struct is responsible for verifying incoming transactions.
///
/// It should:
/// - validate block number or time (if it's in the future not past)
/// - take the decoded transaction with its sender
/// - validate minimal gas requirements
/// - force minimal gas price
/// - check the sender's quota
/// - check if sender is certified
/// - validate sender balance and nonce
#[derive(Debug)]
pub struct Verifier {
    options: Options,
    mode: VerifierMode,
}

/// A [`Verifier`] as a plain value.
pub struct VerifierView {
    pub options: Options,
    pub mode: VerifierMode,
}

impl View for Verifier {
    type V = VerifierView;

    closed spec fn view(&self) -> VerifierView {
        VerifierView { options: self.options, mode: self.mode }
    }
}

impl Verifier {
    /// Create new verifier for block-based scheduling.
    pub fn new_block(options: Options) -> (verifier: Self)
        ensures
            verifier@ == (VerifierView { options, mode: VerifierMode::Block }),
    {
        Verifier { options, mode: VerifierMode::Block }
    }

    /// Create new verifier for timestamp-based scheduling.
    pub fn new_timestamp(options: Options) -> (verifier: Self)
        ensures
            verifier@ == (VerifierView { options, mode: VerifierMode::Timestamp }),
    {
        Verifier { options, mode: VerifierMode::Timestamp }
    }

    /// The options that the verifier holds transactions to.
    pub fn options(&self) -> (options: &Options)
        ensures
            *options == self@.options,
    {
        &self.options
    }

    /// Whether the verifier checks block numbers or times.
    pub fn mode(&self) -> (mode: VerifierMode)
        ensures
            mode == self@.mode,
    {
        self.mode
    }

    /// A block number can be scheduled for when it lies more than
    /// `min_schedule_block` and at most `max_schedule_block` after the latest
    /// block.
    pub fn verify_block_number(&self, blockchain: &Blockchain, block_number: u64) -> (verified:
        Result<(), Error>)
        ensures
            match verified {
                Ok(_) => outside(
                    blockchain@.latest_block,
                    self@.options.min_schedule_block,
                    self@.options.max_schedule_block,
                    block_number,
                ) is None,
                Err(error) => outside(
                    blockchain@.latest_block,
                    self@.options.min_schedule_block,
                    self@.options.max_schedule_block,
                    block_number,
                ) matches Some(bound) && error@ == ErrorView::InvalidBlockNumber(bound),
            },
    {
        match check_window(
            blockchain.latest_block(),
            self.options.min_schedule_block,
            self.options.max_schedule_block,
            block_number,
        ) {
            Some(bound) => Err(Error::InvalidBlockNumber(bound)),
            None => Ok(()),
        }
    }

    /// A time can be scheduled for when it lies more than
    /// `min_schedule_seconds` and at most `max_schedule_seconds` after `now`.
    pub fn check_timestamp(&self, now: u64, time: u64) -> (verified: Result<(), Error>)
        ensures
            match verified {
                Ok(_) => outside(
                    now,
                    self@.options.min_schedule_seconds,
                    self@.options.max_schedule_seconds,
                    time,
                ) is None,
                Err(error) => outside(
                    now,
                    self@.options.min_schedule_seconds,
                    self@.options.max_schedule_seconds,
                    time,
                ) matches Some(bound) && error@ == ErrorView::InvalidTimestamp(bound),
            },
    {
        match check_window(
            now,
            self.options.min_schedule_seconds,
            self.options.max_schedule_seconds,
            time,
        ) {
            Some(bound) => Err(Error::InvalidTimestamp(bound)),
            None => Ok(()),
        }
    }

    /// What [`Verifier::check_timestamp`] says of `time` by the wall clock,
    /// whatever it shows.
    pub fn verify_timestamp(&self, time: u64) -> (verified: Result<(), Error>)
        ensures
            exists|now: u64|
                match verified {
                    Ok(_) => #[trigger] outside(
                        now,
                        self@.options.min_schedule_seconds,
                        self@.options.max_schedule_seconds,
                        time,
                    ) is None,
                    Err(error) => outside(
                        now,
                        self@.options.min_schedule_seconds,
                        self@.options.max_schedule_seconds,
                        time,
                    ) matches Some(bound) && error@ == ErrorView::InvalidTimestamp(bound),
                },
    {
        let now = now_seconds();
        let verified = self.check_timestamp(now, time);
        proof {
            let min = self@.options.min_schedule_seconds;
            let max = self@.options.max_schedule_seconds;
            assert(match verified {
                Ok(_) => outside(now, min, max, time) is None,
                Err(error) => outside(now, min, max, time) matches Some(bound) && error@
                    == ErrorView::InvalidTimestamp(bound),
            });
        }
        verified
    }

    /// The first check: whether `num` lies in the schedule window, which for
    /// block numbers starts at the latest block and for times at the wall
    /// clock, whatever it shows. Only a number that does can go on to
    /// [`Verifier::verify`].
    pub fn schedule(&self, blockchain: &Blockchain, num: u64) -> (scheduled: Result<
        Scheduled,
        Error,
    >)
        ensures
            match scheduled {
                Ok(scheduled) => scheduled@ == num,
                Err(error) => exists|bound: Bound| error@ == window_fault(self@.mode, bound),
            },
            self@.mode == VerifierMode::Block ==> match scheduled {
                Ok(_) => outside(
                    blockchain@.latest_block,
                    self@.options.min_schedule_block,
                    self@.options.max_schedule_block,
                    num,
                ) is None,
                Err(error) => outside(
                    blockchain@.latest_block,
                    self@.options.min_schedule_block,
                    self@.options.max_schedule_block,
                    num,
                ) matches Some(bound) && error@ == ErrorView::InvalidBlockNumber(bound),
            },
            self@.mode == VerifierMode::Timestamp ==> exists|now: u64|
                match scheduled {
                    Ok(_) => #[trigger] outside(
                        now,
                        self@.options.min_schedule_seconds,
                        self@.options.max_schedule_seconds,
                        num,
                    ) is None,
                    Err(error) => outside(
                        now,
                        self@.options.min_schedule_seconds,
                        self@.options.max_schedule_seconds,
                        num,
                    ) matches Some(bound) && error@ == ErrorView::InvalidTimestamp(bound),
                },
    {
        let verified = match self.mode {
            VerifierMode::Block => self.verify_block_number(blockchain, num),
            VerifierMode::Timestamp => self.verify_timestamp(num),
        };
        match verified {
            Ok(_) => Ok(Scheduled { num }),
            Err(error) => {
                proof {
                    match error {
                        Error::InvalidBlockNumber(bound) => {
                            assert(error@ == window_fault(self@.mode, bound));
                        },
                        Error::InvalidTimestamp(bound) => {
                            assert(error@ == window_fault(self@.mode, bound));
                        },
                        _ => {},
                    }
                }
                Err(error)
            },
        }
    }

    /// Verify and parse the RLP of a request whose number lies in the
    /// schedule window: the transaction is decoded, and what came of that
    /// goes through the checks of [`Verifier::verify_decoded`].
    pub fn verify(
        &self,
        scheduled: Scheduled,
        transaction: &[u8],
        blockchain: &Blockchain,
        database: &Database,
    ) -> (step: Step)
        requires
            database@.wf(),
        ensures
            exists|decoded: Decoded| #[trigger]
                decodes(transaction@, decoded) && step@ == begin(
                    self@.options,
                    scheduled@,
                    decoded,
                    blockchain@,
                    database@,
                ),
    {
        let decoded = decode(transaction);
        let ghost witness = decoded;
        let ghost num = scheduled@;
        let step = self.verify_decoded(scheduled, decoded, blockchain, database);
        proof {
            assert(decodes(transaction@, witness) && step@ == begin(
                self@.options,
                num,
                witness,
                blockchain@,
                database@,
            ));
        }
        step
    }

    /// Verify the decoded transaction of a request whose number lies in the
    /// schedule window: the checks of [`begin`], in their order.
    pub fn verify_decoded(
        &self,
        scheduled: Scheduled,
        decoded: Decoded,
        blockchain: &Blockchain,
        database: &Database,
    ) -> (step: Step)
        requires
            database@.wf(),
        ensures
            step@ == begin(self@.options, scheduled@, decoded, blockchain@, database@),
    {
        let tx = match verify_transaction(decoded, &self.options) {
            Ok(tx) => tx,
            Err(error) => {
                return Step::Rejected(error);
            },
        };
        // Verify transaction sender
        if !database.sender_allowed(&tx.sender) {
            return Step::Rejected(Error::SenderQuotaExceeded);
        }
        let certified = blockchain.is_certified(&tx.sender);
        let pending = Pending {
            num: scheduled.num,
            asked_at: blockchain.latest_block(),
            transaction: tx,
        };
        self.after_quota(pending, certified, blockchain)
    }

    /// The check of the certification, as far as it is known, and what
    /// follows it.
    fn after_quota(&self, pending: Pending, certified: Option<bool>, blockchain: &Blockchain) -> (step:
        Step)
        ensures
            step@ == certify(
                self@.options,
                pending@,
                certified,
                blockchain@.balance_and_nonce(pending@.transaction.sender@),
            ),
    {
        match certified {
            None => Step::AskCertification(pending),
            Some(false) => Step::Rejected(Error::NotCertified),
            Some(true) => {
                let known = blockchain.balance_and_nonce(&pending.transaction.sender);
                self.after_certified(pending, known)
            },
        }
    }

    /// The check of balance and nonce, as far as they are known.
    fn after_certified(&self, pending: Pending, known: Option<(U256, U256)>) -> (step: Step)
        ensures
            step@ == fund(self@.options, pending@, known),
    {
        match known {
            None => Step::AskBalanceAndNonce(pending),
            Some((balance, nonce)) => {
                match verify_economics(
                    &pending.transaction,
                    balance,
                    nonce,
                    self.options.strict_nonce,
                ) {
                    Err(error) => Step::Rejected(error),
                    Ok(_) => {
                        let Pending { num, asked_at: _, transaction } = pending;
                        proof {
                            Transaction::lemma_of(transaction);
                        }
                        Step::Accepted(num, Transaction::from(transaction))
                    },
                }
            },
        }
    }

    /// Goes on with a transaction after the certifier was asked about its
    /// sender. An answer is remembered, unless the latest block has changed
    /// since the question; a failure to get one rejects the transaction.
    pub fn certified(
        &self,
        pending: Pending,
        answer: Result<bool, String>,
        blockchain: &mut Blockchain,
    ) -> (step: Step)
        ensures
            match answer {
                Ok(certified) => {
                    &&& final(blockchain)@ == if old(blockchain)@.latest_block
                        == pending@.asked_at {
                        BlockchainView {
                            certification: old(blockchain)@.certification.insert(
                                pending@.transaction.sender@,
                                certified,
                            ),
                            ..old(blockchain)@
                        }
                    } else {
                        old(blockchain)@
                    }
                    &&& step@ == certify(
                        self@.options,
                        pending@,
                        Some(certified),
                        old(blockchain)@.balance_and_nonce(pending@.transaction.sender@),
                    )
                },
                Err(text) => {
                    &&& final(blockchain)@ == old(blockchain)@
                    &&& step@ == StepView::Rejected(ErrorView::InvalidTransaction(text@))
                },
            },
    {
        match answer {
            Err(text) => Step::Rejected(Error::InvalidTransaction(text)),
            Ok(certified) => {
                if blockchain.latest_block() == pending.asked_at {
                    blockchain.remember_certification(pending.transaction.sender, certified);
                }
                self.after_quota(pending, Some(certified), blockchain)
            },
        }
    }

    /// Goes on with a transaction after the chain was asked for the balance
    /// and the nonce of its sender. An answer is remembered, unless the
    /// latest block has changed since the question; a failure to get one
    /// rejects the transaction.
    pub fn funded(
        &self,
        pending: Pending,
        answer: Result<(U256, U256), String>,
        blockchain: &mut Blockchain,
    ) -> (step: Step)
        ensures
            match answer {
                Ok((balance, nonce)) => {
                    &&& final(blockchain)@ == if old(blockchain)@.latest_block
                        == pending@.asked_at {
                        BlockchainView {
                            balance_and_nonce: old(blockchain)@.balance_and_nonce.insert(
                                pending@.transaction.sender@,
                                (balance, nonce),
                            ),
                            ..old(blockchain)@
                        }
                    } else {
                        old(blockchain)@
                    }
                    &&& step@ == fund(self@.options, pending@, Some((balance, nonce)))
                },
                Err(text) => {
                    &&& final(blockchain)@ == old(blockchain)@
                    &&& step@ == StepView::Rejected(ErrorView::InvalidTransaction(text@))
                },
            },
    {
        match answer {
            Err(text) => Step::Rejected(Error::InvalidTransaction(text)),
            Ok((balance, nonce)) => {
                if blockchain.latest_block() == pending.asked_at {
                    blockchain.remember_balance_and_nonce(
                        pending.transaction.sender,
                        balance,
                        nonce,
                    );
                }
                self.after_certified(pending, Some((balance, nonce)))
            },
        }
    }
}

} // verus!
