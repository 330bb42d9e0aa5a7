use cross_registry::address::derive_address;
use cross_registry::identity::Identity;
use cross_registry::investment_ledger::{
    get_investment_history, get_startup_investments, record_investment, verify_startup,
    ErrorCode, GetInvestmentHistory, GetStartupInvestments, Investment, RecordInvestment,
    StartupAccount, CONFIRMED, INVESTMENT_HEADER,
};
use cross_registry::ledger::Ledger;
use cross_registry::startup_registry::{
    add_employee, get_startup_profile, register_startup, AddEmployee, CertificateAccount,
    GetStartupProfile, RegisterStartup, Startup,
};

const REGISTRY: u8 = 10;
const CERTIFICATES: u8 = 20;
const INVESTMENTS: u8 = 60;
const FOUNDER: u8 = 30;
const INVESTOR: u8 = 70;

fn id(byte: u8) -> Identity {
    Identity::new([byte; 32])
}

fn register(ledger: &mut Ledger, startup_id: &str) -> Startup {
    let ctx = RegisterStartup { program_id: id(REGISTRY), founder: id(FOUNDER) };
    register_startup(
        ledger,
        &ctx,
        startup_id.to_string(),
        "Acme".to_string(),
        "fintech".to_string(),
    )
    .unwrap()
}

fn invest(
    ledger: &mut Ledger,
    investment_id: &str,
    startup_id: &str,
    amount: u64,
) -> Result<Investment, ErrorCode> {
    let ctx = RecordInvestment {
        program_id: id(INVESTMENTS),
        startup_registry: id(REGISTRY),
        investor: id(INVESTOR),
    };
    record_investment(ledger, &ctx, investment_id.to_string(), startup_id.to_string(), amount)
}

fn history(ledger: &Ledger, investment_id: &str) -> Result<Investment, ErrorCode> {
    let ctx = GetInvestmentHistory {
        program_id: id(INVESTMENTS),
        investment_id: investment_id.to_string(),
    };
    get_investment_history(ledger, &ctx)
}

fn by_startup(ledger: &Ledger, investment_id: &str) -> Result<Investment, ErrorCode> {
    let ctx = GetStartupInvestments {
        program_id: id(INVESTMENTS),
        investment_id: investment_id.to_string(),
    };
    get_startup_investments(ledger, &ctx)
}

#[test]
fn investment_header_spells_the_record_kind() {
    assert_eq!(INVESTMENT_HEADER.to_le_bytes(), [175, 134, 9, 175, 115, 153, 39, 28]);
    assert_eq!(CONFIRMED, "confirmed");
}

#[test]
fn investment_payload_is_header_then_fields() {
    let record = Investment {
        investment_id: "inv1".to_string(),
        investor_address: id(INVESTOR),
        startup_id: "s1".to_string(),
        amount_usdc: 1_000_000,
        timestamp: 3,
        status: "confirmed".to_string(),
    };
    let mut expected = vec![175, 134, 9, 175, 115, 153, 39, 28];
    expected.extend_from_slice(&[4, 0, 0, 0, b'i', b'n', b'v', b'1']);
    expected.extend_from_slice(&[INVESTOR; 32]);
    expected.extend_from_slice(&[2, 0, 0, 0, b's', b'1']);
    expected.extend_from_slice(&[0x40, 0x42, 0x0f, 0, 0, 0, 0, 0]);
    expected.extend_from_slice(&[3, 0, 0, 0, 0, 0, 0, 0]);
    expected.extend_from_slice(&[9, 0, 0, 0]);
    expected.extend_from_slice(b"confirmed");
    assert_eq!(record.encode(), expected);
    assert_eq!(Investment::decode(&expected), Some(record.clone()));
    for cut in 0..expected.len() {
        assert_eq!(Investment::decode(&expected[..cut]), None);
    }
    expected.extend_from_slice(&[0; 20]);
    assert_eq!(Investment::decode(&expected), Some(record));
}

#[test]
fn investment_in_a_registered_startup_is_recorded_as_confirmed() {
    let mut ledger = Ledger::new(1_700_000_000);
    register(&mut ledger, "s1");
    ledger.advance_clock(1_700_000_500);
    let record = invest(&mut ledger, "inv1", "s1", 1_000_000).unwrap();
    assert_eq!(
        record,
        Investment {
            investment_id: "inv1".to_string(),
            investor_address: id(INVESTOR),
            startup_id: "s1".to_string(),
            amount_usdc: 1_000_000,
            timestamp: 1_700_000_500,
            status: "confirmed".to_string(),
        }
    );
    assert_eq!(history(&ledger, "inv1"), Ok(record.clone()));
    assert_eq!(by_startup(&ledger, "inv1"), Ok(record.clone()));
    let account = ledger.get(&derive_address("investment", "inv1", &id(INVESTMENTS))).unwrap();
    assert_eq!(account.owner, id(INVESTMENTS));
    assert_eq!(account.data, record.encode());
}

#[test]
fn investment_in_an_unknown_startup_is_refused_and_nothing_is_written() {
    let mut ledger = Ledger::new(1);
    register(&mut ledger, "s1");
    assert_eq!(invest(&mut ledger, "inv1", "s2", 5), Err(ErrorCode::InvalidRecord));
    assert!(!ledger.is_occupied(&derive_address("investment", "inv1", &id(INVESTMENTS))));
    assert_eq!(history(&ledger, "inv1"), Err(ErrorCode::NotFound));
    assert_eq!(by_startup(&ledger, "inv1"), Err(ErrorCode::NotFound));
}

#[test]
fn investment_in_a_startup_of_another_owner_is_refused() {
    let mut ledger = Ledger::new(1);
    let record = register(&mut Ledger::new(1), "s1");
    let address = derive_address("startup", "s1", &id(REGISTRY));
    assert!(ledger.create(address, id(11), record.encode()));
    assert_eq!(invest(&mut ledger, "inv1", "s1", 5), Err(ErrorCode::InvalidRecord));
    assert!(!ledger.is_occupied(&derive_address("investment", "inv1", &id(INVESTMENTS))));
}

#[test]
fn investment_in_a_startup_record_that_holds_another_id_is_refused() {
    let mut ledger = Ledger::new(1);
    let record = register(&mut Ledger::new(1), "s2");
    let address = derive_address("startup", "s1", &id(REGISTRY));
    assert!(ledger.create(address, id(REGISTRY), record.encode()));
    assert_eq!(invest(&mut ledger, "inv1", "s1", 5), Err(ErrorCode::InvalidRecord));
    assert_eq!(invest(&mut ledger, "inv1", "s2", 5), Err(ErrorCode::InvalidRecord));
}

#[test]
fn investment_in_an_empty_or_malformed_startup_record_is_refused() {
    let mut ledger = Ledger::new(1);
    let empty = derive_address("startup", "empty", &id(REGISTRY));
    assert!(ledger.create(empty, id(REGISTRY), Vec::new()));
    let header = derive_address("startup", "header", &id(REGISTRY));
    assert!(ledger.create(header, id(REGISTRY), vec![99, 107, 22, 203, 78, 40, 25, 207]));
    let garbage = derive_address("startup", "garbage", &id(REGISTRY));
    assert!(ledger.create(garbage, id(REGISTRY), vec![3; 300]));
    for startup_id in ["empty", "header", "garbage"] {
        assert_eq!(invest(&mut ledger, "inv1", startup_id, 5), Err(ErrorCode::InvalidRecord));
    }
    assert!(!ledger.is_occupied(&derive_address("investment", "inv1", &id(INVESTMENTS))));
}

#[test]
fn recording_the_same_investment_twice_fails_and_keeps_the_first_record() {
    let mut ledger = Ledger::new(1);
    register(&mut ledger, "s1");
    register(&mut ledger, "s2");
    let first = invest(&mut ledger, "inv1", "s1", 10).unwrap();
    ledger.advance_clock(2);
    assert_eq!(invest(&mut ledger, "inv1", "s1", 10), Err(ErrorCode::DuplicateId));
    assert_eq!(invest(&mut ledger, "inv1", "s2", 99), Err(ErrorCode::DuplicateId));
    assert_eq!(history(&ledger, "inv1"), Ok(first));
}

#[test]
fn unverified_startup_fails_before_a_duplicate_id() {
    let mut ledger = Ledger::new(1);
    register(&mut ledger, "s1");
    invest(&mut ledger, "inv1", "s1", 10).unwrap();
    assert_eq!(invest(&mut ledger, "inv1", "nowhere", 10), Err(ErrorCode::InvalidRecord));
}

#[test]
fn several_investments_in_one_startup_are_separate_records() {
    let mut ledger = Ledger::new(1);
    register(&mut ledger, "s1");
    let a = invest(&mut ledger, "inv1", "s1", 10).unwrap();
    let b = invest(&mut ledger, "inv2", "s1", 0).unwrap();
    let c = invest(&mut ledger, "inv3", "s1", u64::MAX).unwrap();
    assert_eq!(history(&ledger, "inv1"), Ok(a));
    assert_eq!(history(&ledger, "inv2"), Ok(b));
    assert_eq!(by_startup(&ledger, "inv3"), Ok(c));
    assert_eq!(by_startup(&ledger, "s1"), Err(ErrorCode::NotFound));
}

#[test]
fn reading_an_account_that_is_no_investment_record_is_not_found() {
    let mut ledger = Ledger::new(1);
    register(&mut ledger, "s1");
    let record = invest(&mut Ledger::new(1), "x", "s1", 1).unwrap_err();
    assert_eq!(record, ErrorCode::InvalidRecord);
    let foreign = derive_address("investment", "foreign", &id(INVESTMENTS));
    assert!(ledger.create(foreign, id(61), vec![175, 134, 9, 175, 115, 153, 39, 28, 0]));
    assert_eq!(history(&ledger, "foreign"), Err(ErrorCode::NotFound));
    let garbage = derive_address("investment", "garbage", &id(INVESTMENTS));
    assert!(ledger.create(garbage, id(INVESTMENTS), vec![1; 90]));
    assert_eq!(history(&ledger, "garbage"), Err(ErrorCode::NotFound));
    assert_eq!(by_startup(&ledger, "garbage"), Err(ErrorCode::NotFound));
}

#[test]
fn verified_startup_is_given_with_its_fields() {
    let mut ledger = Ledger::new(4);
    register(&mut ledger, "s1");
    assert_eq!(
        verify_startup(&ledger, &id(REGISTRY), &"s1".to_string()),
        Ok(StartupAccount {
            startup_id: "s1".to_string(),
            name: "Acme".to_string(),
            sector: "fintech".to_string(),
            founder_address: id(FOUNDER),
            employee_addresses: Vec::new(),
            registration_timestamp: 4,
        })
    );
    assert_eq!(
        verify_startup(&ledger, &id(REGISTRY), &"s2".to_string()),
        Err(ErrorCode::InvalidRecord)
    );
    assert_eq!(
        verify_startup(&ledger, &id(INVESTMENTS), &"s1".to_string()),
        Err(ErrorCode::InvalidRecord)
    );
}

#[test]
fn startup_account_reads_what_the_registry_wrote() {
    let mut ledger = Ledger::new(4);
    let record = register(&mut ledger, "s1");
    let read = StartupAccount::decode(&record.encode()).unwrap();
    assert_eq!(read.startup_id, record.startup_id);
    assert_eq!(read.name, record.name);
    assert_eq!(read.sector, record.sector);
    assert_eq!(read.founder_address, record.founder_address);
    assert_eq!(read.employee_addresses, record.employee_addresses);
    assert_eq!(read.registration_timestamp, record.registration_timestamp);
    assert_eq!(StartupAccount::decode(&[1, 2, 3]), None);
}

#[test]
fn startup_employee_and_investment_end_to_end() {
    let mut ledger = Ledger::new(1_700_000_000);
    let registry = RegisterStartup { program_id: id(REGISTRY), founder: id(FOUNDER) };
    register_startup(
        &mut ledger,
        &registry,
        "s1".to_string(),
        "Acme".to_string(),
        "fintech".to_string(),
    )
    .unwrap();

    let certificate = CertificateAccount {
        certificate_id: "cert1".to_string(),
        student_name: "Ada".to_string(),
        degree: "BSc".to_string(),
        university: "MIT".to_string(),
        graduation_date: "2020-06-01".to_string(),
        certificate_hash: "abc123".to_string(),
        issue_timestamp: 1_600_000_000,
        authority: id(50),
    };
    let certificate_address = derive_address("certificate", "cert1", &id(CERTIFICATES));
    assert!(ledger.create(certificate_address, id(CERTIFICATES), certificate.encode()));

    let employee = AddEmployee {
        program_id: id(REGISTRY),
        certificate_registry: id(CERTIFICATES),
        startup_id: "s1".to_string(),
        employee: id(40),
    };
    assert_eq!(add_employee(&mut ledger, &employee, "cert1".to_string()), Ok(()));
    let read = GetStartupProfile { program_id: id(REGISTRY), startup_id: "s1".to_string() };
    assert_eq!(
        get_startup_profile(&ledger, &read).unwrap().employee_addresses,
        vec!["cert1".to_string()]
    );

    ledger.advance_clock(1_700_000_777);
    let record = invest(&mut ledger, "inv1", "s1", 1_000_000).unwrap();
    assert_eq!(record.investment_id, "inv1");
    assert_eq!(record.startup_id, "s1");
    assert_eq!(record.amount_usdc, 1_000_000);
    assert_eq!(record.status, "confirmed");
    assert_eq!(record.timestamp, ledger.unix_timestamp());
    assert_eq!(record.timestamp, 1_700_000_777);
    assert_eq!(record.investor_address, id(INVESTOR));
    assert_eq!(history(&ledger, "inv1"), Ok(record));
    assert_eq!(
        get_startup_profile(&ledger, &read).unwrap().employee_addresses,
        vec!["cert1".to_string()]
    );
}
