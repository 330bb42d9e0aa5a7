//! The Investment Ledger: one record per investment, written once and never
//! changed. An investment names a startup, and is recorded only if the
//! Startup Registry holds that startup.

use crate::address::{derive_address, derived, AddressView};
use crate::address::{INVESTMENT_NAMESPACE, STARTUP_NAMESPACE};
use crate::identity::Identity;
use crate::ledger::{Ledger, LedgerView};
use crate::startup_registry::{
    lemma_parsed_startup_fits, parse_startup, startup_address, Startup, StartupView,
};
use crate::verification::{verified, verify};
use crate::wire::{
    after_header, has_header, lemma_header, lemma_parse_ser_i64, lemma_ser_header,
    lemma_ser_parse_i64, lemma_ser_parse_identity, lemma_ser_parse_string, lemma_ser_parse_u64, lemma_parse_ser_identity,
    lemma_parse_ser_string, lemma_parse_ser_u64, parse_i64,
    parse_identity, parse_string, parse_u64, read_header, read_i64, read_identity, read_string,
    read_u64, ser_i64, ser_string, ser_u64, string_fits, write_i64, write_identity, write_string,
    write_u64,
};
use vstd::prelude::*;

verus! {

/// The header of an investment record, as the 64-bit integer that its eight
/// bytes spell, least significant byte first.
pub const INVESTMENT_HEADER: u64 = 0x1c27_9973_af09_86af;

/// The status of a recorded investment.
pub const CONFIRMED: &'static str = "confirmed";

/// What an investment record holds.
pub struct InvestmentView {
    pub investment_id: Seq<char>,
    pub investor_address: Seq<u8>,
    pub startup_id: Seq<char>,
    pub amount_usdc: u64,
    pub timestamp: i64,
    pub status: Seq<char>,
}

impl InvestmentView {
    /// Whether the record can be written: its strings fit the wire layout.
    pub open spec fn fits(self) -> bool {
        &&& string_fits(self.investment_id)
        &&& self.investor_address.len() == 32
        &&& string_fits(self.startup_id)
        &&& string_fits(self.status)
    }

    /// The payload of the record, followed by `tail`.
    pub open spec fn payload_before(self, tail: Seq<u8>) -> Seq<u8> {
        ser_u64(INVESTMENT_HEADER) + (ser_string(self.investment_id) + (self.investor_address + (
        ser_string(self.startup_id) + (ser_u64(self.amount_usdc) + (ser_i64(self.timestamp) + (
        ser_string(self.status) + tail))))))
    }

    /// The payload of the record: header, identifier, investor, startup,
    /// amount, time, status.
    pub open spec fn payload(self) -> Seq<u8> {
        self.payload_before(Seq::<u8>::empty())
    }
}

/// The investment record that a payload holds: the fields behind the
/// investment header, whatever follows them.
pub open spec fn parse_investment(bytes: Seq<u8>) -> Option<InvestmentView> {
    if !has_header(bytes, INVESTMENT_HEADER) {
        None
    } else {
        let b1 = after_header(bytes);
        match parse_string(b1) {
            None => None,
            Some((investment_id, n1)) => {
                let b2 = b1.skip(n1 as int);
                match parse_identity(b2) {
                    None => None,
                    Some((investor_address, n2)) => {
                        let b3 = b2.skip(n2 as int);
                        match parse_string(b3) {
                            None => None,
                            Some((startup_id, n3)) => {
                                let b4 = b3.skip(n3 as int);
                                match parse_u64(b4) {
                                    None => None,
                                    Some((amount_usdc, n4)) => {
                                        let b5 = b4.skip(n4 as int);
                                        match parse_i64(b5) {
                                            None => None,
                                            Some((timestamp, n5)) => {
                                                match parse_string(b5.skip(n5 as int)) {
                                                    None => None,
                                                    Some((status, _)) => Some(
                                                        InvestmentView {
                                                            investment_id,
                                                            investor_address,
                                                            startup_id,
                                                            amount_usdc,
                                                            timestamp,
                                                            status,
                                                        },
                                                    ),
                                                }
                                            },
                                        }
                                    },
                                }
                            },
                        }
                    },
                }
            },
        }
    }
}

/// An investment record that was written is read back as it was, whatever
/// follows it.
pub proof fn lemma_parse_investment_payload(record: InvestmentView, tail: Seq<u8>)
    requires
        record.fits(),
    ensures
        parse_investment(record.payload_before(tail)) == Some(record),
{
    let t6 = ser_string(record.status) + tail;
    let t5 = ser_i64(record.timestamp) + t6;
    let t4 = ser_u64(record.amount_usdc) + t5;
    let t3 = ser_string(record.startup_id) + t4;
    let t2 = record.investor_address + t3;
    let t1 = ser_string(record.investment_id) + t2;
    lemma_header(INVESTMENT_HEADER, t1);
    lemma_parse_ser_string(record.investment_id, t2);
    lemma_parse_ser_identity(record.investor_address, t3);
    lemma_parse_ser_string(record.startup_id, t4);
    lemma_parse_ser_u64(record.amount_usdc, t5);
    lemma_parse_ser_i64(record.timestamp, t6);
    lemma_parse_ser_string(record.status, tail);
}

/// The bytes that an investment record was read from are its payload, and
/// what follows it: a record that was read, written again, gives the same
/// bytes.
pub proof fn lemma_investment_payload_parsed(bytes: Seq<u8>)
    ensures
        parse_investment(bytes) matches Some(record) ==> exists|tail: Seq<u8>|
            bytes == #[trigger] record.payload_before(tail),
{
    if let Some(record) = parse_investment(bytes) {
        lemma_ser_header(bytes, INVESTMENT_HEADER);
        let b1 = after_header(bytes);
        lemma_ser_parse_string(b1);
        let b2 = b1.skip(parse_string(b1).unwrap().1 as int);
        lemma_ser_parse_identity(b2);
        let b3 = b2.skip(parse_identity(b2).unwrap().1 as int);
        lemma_ser_parse_string(b3);
        let b4 = b3.skip(parse_string(b3).unwrap().1 as int);
        lemma_ser_parse_u64(b4);
        let b5 = b4.skip(parse_u64(b4).unwrap().1 as int);
        lemma_ser_parse_i64(b5);
        let b6 = b5.skip(parse_i64(b5).unwrap().1 as int);
        lemma_ser_parse_string(b6);
        let tail = b6.skip(parse_string(b6).unwrap().1 as int);
        assert(bytes == record.payload_before(tail));
    }
}

/// The status of a recorded investment can be written.
pub proof fn lemma_confirmed_fits()
    ensures
        string_fits(CONFIRMED@),
{
    reveal_strlit("confirmed");
    vstd::string::is_ascii_spec_bytes("confirmed");
    assert(vstd::string::is_ascii("confirmed"));
}

/// The record of one investment.
#[derive(Clone, Debug, PartialEq, Eq)]
pub struct Investment {
    pub investment_id: String,
    pub investor_address: Identity,
    pub startup_id: String,
    pub amount_usdc: u64,
    pub timestamp: i64,
    pub status: String,
}

impl View for Investment {
    type V = InvestmentView;

    open spec fn view(&self) -> InvestmentView {
        InvestmentView {
            investment_id: self.investment_id@,
            investor_address: self.investor_address@,
            startup_id: self.startup_id@,
            amount_usdc: self.amount_usdc,
            timestamp: self.timestamp,
            status: self.status@,
        }
    }
}

impl Investment {
    /// The payload of the record.
    pub fn encode(&self) -> (payload: Vec<u8>)
        requires
            self@.fits(),
        ensures
            payload@ == self@.payload(),
    {
        let ghost whole = self@.payload();
        let ghost t6 = ser_string(self@.status) + Seq::<u8>::empty();
        let ghost t5 = ser_i64(self@.timestamp) + t6;
        let ghost t4 = ser_u64(self@.amount_usdc) + t5;
        let ghost t3 = ser_string(self@.startup_id) + t4;
        let ghost t2 = self@.investor_address + t3;
        let ghost t1 = ser_string(self@.investment_id) + t2;
        let mut out: Vec<u8> = Vec::new();
        write_u64(&mut out, INVESTMENT_HEADER);
        assert(out@ + t1 =~= whole);
        write_string(&mut out, self.investment_id.as_str());
        assert(out@ + t2 =~= whole);
        write_identity(&mut out, &self.investor_address);
        assert(out@ + t3 =~= whole);
        write_string(&mut out, self.startup_id.as_str());
        assert(out@ + t4 =~= whole);
        write_u64(&mut out, self.amount_usdc);
        assert(out@ + t5 =~= whole);
        write_i64(&mut out, self.timestamp);
        assert(out@ + t6 =~= whole);
        write_string(&mut out, self.status.as_str());
        assert(out@ =~= whole);
        out
    }

    /// The investment record that `data` holds, if it holds one.
    pub fn decode(data: &[u8]) -> (record: Option<Investment>)
        ensures
            match parse_investment(data@) {
                Some(held) => record matches Some(found) && found@ == held,
                None => record is None,
            },
    {
        let at1 = match read_header(data, INVESTMENT_HEADER) {
            Some(at1) => at1,
            None => {
                return None;
            },
        };
        let (investment_id, at2) = match read_string(data, at1) {
            Some(field) => field,
            None => {
                return None;
            },
        };
        assert(data@.skip(at1 as int).skip(at2 - at1) =~= data@.skip(at2 as int));
        let (investor_address, at3) = match read_identity(data, at2) {
            Some(field) => field,
            None => {
                return None;
            },
        };
        assert(data@.skip(at2 as int).skip(at3 - at2) =~= data@.skip(at3 as int));
        let (startup_id, at4) = match read_string(data, at3) {
            Some(field) => field,
            None => {
                return None;
            },
        };
        assert(data@.skip(at3 as int).skip(at4 - at3) =~= data@.skip(at4 as int));
        let (amount_usdc, at5) = match read_u64(data, at4) {
            Some(field) => field,
            None => {
                return None;
            },
        };
        assert(data@.skip(at4 as int).skip(at5 - at4) =~= data@.skip(at5 as int));
        let (timestamp, at6) = match read_i64(data, at5) {
            Some(field) => field,
            None => {
                return None;
            },
        };
        assert(data@.skip(at5 as int).skip(at6 - at5) =~= data@.skip(at6 as int));
        let (status, _) = match read_string(data, at6) {
            Some(field) => field,
            None => {
                return None;
            },
        };
        Some(Investment { investment_id, investor_address, startup_id, amount_usdc, timestamp, status })
    }
}

/// A record of the Startup Registry, as the Investment Ledger reads it.
#[derive(Clone, Debug, PartialEq, Eq)]
pub struct StartupAccount {
    pub startup_id: String,
    pub name: String,
    pub sector: String,
    pub founder_address: Identity,
    pub employee_addresses: Vec<String>,
    pub registration_timestamp: i64,
}

impl View for StartupAccount {
    type V = StartupView;

    open spec fn view(&self) -> StartupView {
        StartupView {
            startup_id: self.startup_id@,
            name: self.name@,
            sector: self.sector@,
            founder_address: self.founder_address@,
            employee_addresses: crate::wire::strings_view(self.employee_addresses@),
            registration_timestamp: self.registration_timestamp,
        }
    }
}

impl StartupAccount {
    /// The startup record that `data` holds, if it holds one.
    pub fn decode(data: &[u8]) -> (record: Option<StartupAccount>)
        ensures
            match parse_startup(data@) {
                Some(held) => record matches Some(found) && found@ == held,
                None => record is None,
            },
    {
        match Startup::decode(data) {
            Some(record) => Some(
                StartupAccount {
                    startup_id: record.startup_id,
                    name: record.name,
                    sector: record.sector,
                    founder_address: record.founder_address,
                    employee_addresses: record.employee_addresses,
                    registration_timestamp: record.registration_timestamp,
                },
            ),
            None => None,
        }
    }
}

/// Why an operation of the Investment Ledger failed.
#[derive(Clone, Copy, Debug, PartialEq, Eq)]
pub enum ErrorCode {
    /// The startup that was referred to is missing, is not owned by the
    /// Startup Registry, is empty, or holds another identifier.
    InvalidRecord,
    /// An investment is already recorded under the identifier.
    DuplicateId,
    /// No investment is recorded under the identifier.
    NotFound,
}

/// The call that records an investment: the ledger that is called, the
/// startup registry that it trusts, and the investor who signs.
#[derive(Clone, Copy, Debug, PartialEq, Eq)]
pub struct RecordInvestment {
    pub program_id: Identity,
    pub startup_registry: Identity,
    pub investor: Identity,
}

/// The call that reads one investment: the ledger that is called, and the
/// investment.
#[derive(Clone, Debug, PartialEq, Eq)]
pub struct GetInvestmentHistory {
    pub program_id: Identity,
    pub investment_id: String,
}

/// The call that reads one investment, startup first: the ledger that is
/// called, and the investment.
#[derive(Clone, Debug, PartialEq, Eq)]
pub struct GetStartupInvestments {
    pub program_id: Identity,
    pub investment_id: String,
}

/// Where the ledger `program` keeps the investment `investment_id`.
pub open spec fn investment_address(program: Seq<u8>, investment_id: Seq<char>) -> AddressView {
    derived(INVESTMENT_NAMESPACE@, investment_id, program)
}

/// The startup that stands behind `startup_id`: the record in the verified
/// account at the startup's address, if its own identifier is `startup_id`.
pub open spec fn verified_startup(ledger: LedgerView, registry: Seq<u8>, startup_id: Seq<char>)
    -> Option<StartupView> {
    let address = startup_address(registry, startup_id);
    if verified(ledger, address, registry) {
        match parse_startup(ledger.accounts[address].data) {
            Some(record) => if record.startup_id == startup_id {
                Some(record)
            } else {
                None
            },
            None => None,
        }
    } else {
        None
    }
}

/// The investment record that the ledger `program` holds under
/// `investment_id`: the record in the account at the investment's address,
/// if the ledger owns that account.
pub open spec fn stored_investment(ledger: LedgerView, program: Seq<u8>, investment_id: Seq<char>)
    -> Option<InvestmentView> {
    let address = investment_address(program, investment_id);
    if ledger.occupied(address) && ledger.accounts[address].owner == program {
        parse_investment(ledger.accounts[address].data)
    } else {
        None
    }
}

/// The record of an investment when it is made: confirmed.
pub open spec fn new_investment(
    investment_id: Seq<char>,
    investor: Seq<u8>,
    startup_id: Seq<char>,
    amount_usdc: u64,
    now: i64,
) -> InvestmentView {
    InvestmentView {
        investment_id,
        investor_address: investor,
        startup_id,
        amount_usdc,
        timestamp: now,
        status: CONFIRMED@,
    }
}

/// What recording an investment returns. The startup is verified first;
/// then the investment's address must be free; then the new record is
/// made, stamped with the ledger time.
pub open spec fn record_investment_outcome(
    ledger: LedgerView,
    program: Seq<u8>,
    registry: Seq<u8>,
    investor: Seq<u8>,
    investment_id: Seq<char>,
    startup_id: Seq<char>,
    amount_usdc: u64,
) -> Result<InvestmentView, ErrorCode> {
    if verified_startup(ledger, registry, startup_id) is None {
        Err(ErrorCode::InvalidRecord)
    } else if ledger.occupied(investment_address(program, investment_id)) {
        Err(ErrorCode::DuplicateId)
    } else {
        Ok(new_investment(investment_id, investor, startup_id, amount_usdc, ledger.now))
    }
}

/// The ledger after recording an investment: with the new record at the
/// investment's address, owned by the ledger module, or unchanged on
/// failure.
pub open spec fn record_investment_ledger(
    ledger: LedgerView,
    program: Seq<u8>,
    registry: Seq<u8>,
    investor: Seq<u8>,
    investment_id: Seq<char>,
    startup_id: Seq<char>,
    amount_usdc: u64,
) -> LedgerView {
    match record_investment_outcome(
        ledger,
        program,
        registry,
        investor,
        investment_id,
        startup_id,
        amount_usdc,
    ) {
        Ok(record) => ledger.with_account(
            investment_address(program, investment_id),
            program,
            record.payload(),
        ),
        Err(_) => ledger,
    }
}

/// What reading an investment returns: the stored record.
pub open spec fn investment_record(ledger: LedgerView, program: Seq<u8>, investment_id: Seq<char>)
    -> Result<InvestmentView, ErrorCode> {
    match stored_investment(ledger, program, investment_id) {
        Some(record) => Ok(record),
        None => Err(ErrorCode::NotFound),
    }
}

fn load_investment(ledger: &Ledger, program: &Identity, investment_id: &str) -> (outcome: Result<
    Investment,
    ErrorCode,
>)
    ensures
        match outcome {
            Ok(record) => investment_record(ledger@, program@, investment_id@) == Ok::<
                InvestmentView,
                ErrorCode,
            >(record@),
            Err(error) => investment_record(ledger@, program@, investment_id@) == Err::<
                InvestmentView,
                ErrorCode,
            >(error),
        },
{
    let address = derive_address(INVESTMENT_NAMESPACE, investment_id, program);
    match ledger.get(&address) {
        None => Err(ErrorCode::NotFound),
        Some(account) => {
            if account.owner.matches(program) {
                match Investment::decode(account.data.as_slice()) {
                    Some(record) => Ok(record),
                    None => Err(ErrorCode::NotFound),
                }
            } else {
                Err(ErrorCode::NotFound)
            }
        },
    }
}

/// Verifies the startup `startup_id` of the startup registry `registry`:
/// the account at the startup's address is verified, and the record in it
/// must carry the same identifier.
pub fn verify_startup(ledger: &Ledger, registry: &Identity, startup_id: &String) -> (outcome:
    Result<StartupAccount, ErrorCode>)
    ensures
        match verified_startup(ledger@, registry@, startup_id@) {
            Some(held) => outcome matches Ok(record) && record@ == held,
            None => outcome == Err::<StartupAccount, ErrorCode>(ErrorCode::InvalidRecord),
        },
{
    let address = derive_address(STARTUP_NAMESPACE, startup_id.as_str(), registry);
    match verify(ledger, &address, registry) {
        Err(_) => Err(ErrorCode::InvalidRecord),
        Ok(account) => match StartupAccount::decode(account.data.as_slice()) {
            None => Err(ErrorCode::InvalidRecord),
            Some(record) => {
                if record.startup_id == *startup_id {
                    Ok(record)
                } else {
                    Err(ErrorCode::InvalidRecord)
                }
            },
        },
    }
}

/// Records the investment `investment_id` of `amount_usdc` in the startup
/// `startup_id`, confirmed and stamped with the ledger time, and gives its
/// record. Fails, and changes nothing, with `InvalidRecord` if the startup
/// does not verify, and with `DuplicateId` if the investment's address is
/// occupied.
pub fn record_investment(
    ledger: &mut Ledger,
    ctx: &RecordInvestment,
    investment_id: String,
    startup_id: String,
    amount_usdc: u64,
) -> (outcome: Result<Investment, ErrorCode>)
    requires
        string_fits(investment_id@),
    ensures
        final(ledger)@ == record_investment_ledger(
            old(ledger)@,
            ctx.program_id@,
            ctx.startup_registry@,
            ctx.investor@,
            investment_id@,
            startup_id@,
            amount_usdc,
        ),
        match outcome {
            Ok(record) => record_investment_outcome(
                old(ledger)@,
                ctx.program_id@,
                ctx.startup_registry@,
                ctx.investor@,
                investment_id@,
                startup_id@,
                amount_usdc,
            ) == Ok::<InvestmentView, ErrorCode>(record@),
            Err(error) => record_investment_outcome(
                old(ledger)@,
                ctx.program_id@,
                ctx.startup_registry@,
                ctx.investor@,
                investment_id@,
                startup_id@,
                amount_usdc,
            ) == Err::<InvestmentView, ErrorCode>(error),
        },
{
    if verify_startup(ledger, &ctx.startup_registry, &startup_id).is_err() {
        return Err(ErrorCode::InvalidRecord);
    }
    let address = derive_address(INVESTMENT_NAMESPACE, investment_id.as_str(), &ctx.program_id);
    if ledger.is_occupied(&address) {
        return Err(ErrorCode::DuplicateId);
    }
    proof {
        lemma_parsed_startup_fits(
            ledger@.accounts[startup_address(ctx.startup_registry@, startup_id@)].data,
        );
        lemma_confirmed_fits();
    }
    let record = Investment {
        investment_id,
        investor_address: ctx.investor,
        startup_id,
        amount_usdc,
        timestamp: ledger.unix_timestamp(),
        status: CONFIRMED.to_owned(),
    };
    let payload = record.encode();
    let _ = ledger.create(address, ctx.program_id, payload);
    Ok(record)
}

/// Reads the record of the investment `ctx.investment_id`. Fails with
/// `NotFound` if no such investment is recorded.
pub fn get_investment_history(ledger: &Ledger, ctx: &GetInvestmentHistory) -> (outcome: Result<
    Investment,
    ErrorCode,
>)
    ensures
        match outcome {
            Ok(record) => investment_record(ledger@, ctx.program_id@, ctx.investment_id@) == Ok::<
                InvestmentView,
                ErrorCode,
            >(record@),
            Err(error) => investment_record(ledger@, ctx.program_id@, ctx.investment_id@)
                == Err::<InvestmentView, ErrorCode>(error),
        },
{
    load_investment(ledger, &ctx.program_id, ctx.investment_id.as_str())
}

/// Reads the record of the one investment `ctx.investment_id`: it does not
/// list the investments of a startup. Fails with `NotFound` if no such
/// investment is recorded.
pub fn get_startup_investments(ledger: &Ledger, ctx: &GetStartupInvestments) -> (outcome: Result<
    Investment,
    ErrorCode,
>)
    ensures
        match outcome {
            Ok(record) => investment_record(ledger@, ctx.program_id@, ctx.investment_id@) == Ok::<
                InvestmentView,
                ErrorCode,
            >(record@),
            Err(error) => investment_record(ledger@, ctx.program_id@, ctx.investment_id@)
                == Err::<InvestmentView, ErrorCode>(error),
        },
{
    load_investment(ledger, &ctx.program_id, ctx.investment_id.as_str())
}


/// An investment in a startup that does not verify is refused with
/// `InvalidRecord`, and the ledger stays as it was: an address that held no
/// investment before holds none afterwards.
pub proof fn lemma_unverified_startup_is_refused(
    ledger: LedgerView,
    program: Seq<u8>,
    registry: Seq<u8>,
    investor: Seq<u8>,
    investment_id: Seq<char>,
    startup_id: Seq<char>,
    amount_usdc: u64,
)
    requires
        verified_startup(ledger, registry, startup_id) is None,
    ensures
        record_investment_outcome(
            ledger,
            program,
            registry,
            investor,
            investment_id,
            startup_id,
            amount_usdc,
        ) == Err::<InvestmentView, ErrorCode>(ErrorCode::InvalidRecord),
        record_investment_ledger(
            ledger,
            program,
            registry,
            investor,
            investment_id,
            startup_id,
            amount_usdc,
        ) == ledger,
        !ledger.occupied(investment_address(program, investment_id)) ==> !record_investment_ledger(
            ledger,
            program,
            registry,
            investor,
            investment_id,
            startup_id,
            amount_usdc,
        ).occupied(investment_address(program, investment_id)),
{
}

/// After an investment is recorded, reading it gives the record that was
/// written: the identifier, startup and amount that were given, the
/// investor who signed, the ledger time, and the status confirmed. The
/// startup that it names still verifies.
pub proof fn lemma_recorded_investment_is_read_back(
    ledger: LedgerView,
    program: Seq<u8>,
    registry: Seq<u8>,
    investor: Seq<u8>,
    investment_id: Seq<char>,
    startup_id: Seq<char>,
    amount_usdc: u64,
)
    requires
        record_investment_outcome(
            ledger,
            program,
            registry,
            investor,
            investment_id,
            startup_id,
            amount_usdc,
        ) is Ok,
        string_fits(investment_id),
        investor.len() == 32,
    ensures
        ({
            let record = new_investment(
                investment_id,
                investor,
                startup_id,
                amount_usdc,
                ledger.now,
            );
            let after = record_investment_ledger(
                ledger,
                program,
                registry,
                investor,
                investment_id,
                startup_id,
                amount_usdc,
            );
            &&& record_investment_outcome(
                ledger,
                program,
                registry,
                investor,
                investment_id,
                startup_id,
                amount_usdc,
            ) == Ok::<InvestmentView, ErrorCode>(record)
            &&& investment_record(after, program, investment_id) == Ok::<
                InvestmentView,
                ErrorCode,
            >(record)
            &&& verified_startup(after, registry, startup_id) == verified_startup(
                ledger,
                registry,
                startup_id,
            )
        }),
{
    let record = new_investment(investment_id, investor, startup_id, amount_usdc, ledger.now);
    let source = startup_address(registry, startup_id);
    crate::address::lemma_namespaces_differ();
    assert(source != investment_address(program, investment_id));
    lemma_parsed_startup_fits(ledger.accounts[source].data);
    lemma_confirmed_fits();
    lemma_parse_investment_payload(record, Seq::<u8>::empty());
}

/// Once an investment is recorded, recording the same identifier again
/// fails with `DuplicateId`, whatever amount and investor are given, and
/// leaves the ledger, and so the first record, as they were.
pub proof fn lemma_second_recording_fails(
    ledger: LedgerView,
    program: Seq<u8>,
    registry: Seq<u8>,
    investor: Seq<u8>,
    investment_id: Seq<char>,
    startup_id: Seq<char>,
    amount_usdc: u64,
    second_investor: Seq<u8>,
    second_amount_usdc: u64,
)
    requires
        record_investment_outcome(
            ledger,
            program,
            registry,
            investor,
            investment_id,
            startup_id,
            amount_usdc,
        ) is Ok,
        string_fits(investment_id),
        investor.len() == 32,
    ensures
        ({
            let after = record_investment_ledger(
                ledger,
                program,
                registry,
                investor,
                investment_id,
                startup_id,
                amount_usdc,
            );
            &&& record_investment_outcome(
                after,
                program,
                registry,
                second_investor,
                investment_id,
                startup_id,
                second_amount_usdc,
            ) == Err::<InvestmentView, ErrorCode>(ErrorCode::DuplicateId)
            &&& record_investment_ledger(
                after,
                program,
                registry,
                second_investor,
                investment_id,
                startup_id,
                second_amount_usdc,
            ) == after
        }),
{
    lemma_recorded_investment_is_read_back(
        ledger,
        program,
        registry,
        investor,
        investment_id,
        startup_id,
        amount_usdc,
    );
}


/// Recording an investment deletes nothing and changes no account that was
/// there before: an investment, once recorded, stays as it is.
pub proof fn lemma_recording_keeps_accounts(
    ledger: LedgerView,
    program: Seq<u8>,
    registry: Seq<u8>,
    investor: Seq<u8>,
    investment_id: Seq<char>,
    startup_id: Seq<char>,
    amount_usdc: u64,
    address: AddressView,
)
    requires
        ledger.occupied(address),
    ensures
        ({
            let after = record_investment_ledger(
                ledger,
                program,
                registry,
                investor,
                investment_id,
                startup_id,
                amount_usdc,
            );
            after.occupied(address) && after.accounts[address] == ledger.accounts[address]
                && after.now == ledger.now
        }),
{
}

} // verus!
