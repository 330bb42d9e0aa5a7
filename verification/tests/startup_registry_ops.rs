use cross_registry::address::derive_address;
use cross_registry::identity::Identity;
use cross_registry::ledger::Ledger;
use cross_registry::startup_registry::{
    add_employee, get_startup_profile, register_startup, verify_certificate, AddEmployee,
    CertificateAccount, ErrorCode, GetStartupProfile, RegisterStartup, Startup,
    CERTIFICATE_HEADER, STARTUP_HEADER,
};

const REGISTRY: u8 = 10;
const CERTIFICATES: u8 = 20;
const FOUNDER: u8 = 30;
const EMPLOYEE: u8 = 40;

fn id(byte: u8) -> Identity {
    Identity::new([byte; 32])
}

fn certificate(certificate_id: &str) -> CertificateAccount {
    CertificateAccount {
        certificate_id: certificate_id.to_string(),
        student_name: "Ada".to_string(),
        degree: "BSc".to_string(),
        university: "MIT".to_string(),
        graduation_date: "2020-06-01".to_string(),
        certificate_hash: "abc123".to_string(),
        issue_timestamp: 1_600_000_000,
        authority: id(50),
    }
}

fn issue(ledger: &mut Ledger, certificate_id: &str) {
    let address = derive_address("certificate", certificate_id, &id(CERTIFICATES));
    assert!(ledger.create(address, id(CERTIFICATES), certificate(certificate_id).encode()));
}

fn register(ledger: &mut Ledger, startup_id: &str) -> Result<Startup, ErrorCode> {
    let ctx = RegisterStartup { program_id: id(REGISTRY), founder: id(FOUNDER) };
    register_startup(
        ledger,
        &ctx,
        startup_id.to_string(),
        "Acme".to_string(),
        "fintech".to_string(),
    )
}

fn add(ledger: &mut Ledger, startup_id: &str, certificate_id: &str) -> Result<(), ErrorCode> {
    let ctx = AddEmployee {
        program_id: id(REGISTRY),
        certificate_registry: id(CERTIFICATES),
        startup_id: startup_id.to_string(),
        employee: id(EMPLOYEE),
    };
    add_employee(ledger, &ctx, certificate_id.to_string())
}

fn profile(ledger: &Ledger, startup_id: &str) -> Result<Startup, ErrorCode> {
    let ctx = GetStartupProfile { program_id: id(REGISTRY), startup_id: startup_id.to_string() };
    get_startup_profile(ledger, &ctx)
}

fn stored(ledger: &Ledger, startup_id: &str) -> Vec<u8> {
    ledger.get(&derive_address("startup", startup_id, &id(REGISTRY))).unwrap().data.clone()
}

#[test]
fn headers_spell_the_record_kinds() {
    assert_eq!(STARTUP_HEADER.to_le_bytes(), [99, 107, 22, 203, 78, 40, 25, 207]);
    assert_eq!(CERTIFICATE_HEADER.to_le_bytes(), [9, 141, 26, 14, 246, 14, 202, 133]);
}

#[test]
fn startup_payload_is_header_then_fields() {
    let record = Startup {
        startup_id: "s1".to_string(),
        name: "Acme".to_string(),
        sector: "fintech".to_string(),
        founder_address: id(FOUNDER),
        employee_addresses: vec!["cert1".to_string()],
        registration_timestamp: 258,
    };
    let mut expected = vec![99, 107, 22, 203, 78, 40, 25, 207];
    expected.extend_from_slice(&[2, 0, 0, 0, b's', b'1']);
    expected.extend_from_slice(&[4, 0, 0, 0, b'A', b'c', b'm', b'e']);
    expected.extend_from_slice(&[7, 0, 0, 0]);
    expected.extend_from_slice(b"fintech");
    expected.extend_from_slice(&[FOUNDER; 32]);
    expected.extend_from_slice(&[1, 0, 0, 0, 5, 0, 0, 0]);
    expected.extend_from_slice(b"cert1");
    expected.extend_from_slice(&[2, 1, 0, 0, 0, 0, 0, 0]);
    assert_eq!(record.encode(), expected);
    assert_eq!(Startup::decode(&expected), Some(record));
}

#[test]
fn startup_record_is_read_back_with_padding_behind_it() {
    let record = Startup {
        startup_id: "s1".to_string(),
        name: "Acme".to_string(),
        sector: "fintech".to_string(),
        founder_address: id(FOUNDER),
        employee_addresses: vec!["a".to_string(), "b".to_string()],
        registration_timestamp: -3,
    };
    let mut data = record.encode();
    data.extend_from_slice(&[0; 100]);
    assert_eq!(Startup::decode(&data), Some(record));
}

#[test]
fn startup_record_with_another_header_or_cut_short_is_not_read() {
    let record = register(&mut Ledger::new(0), "s1").unwrap();
    let data = record.encode();
    for cut in 0..data.len() {
        assert_eq!(Startup::decode(&data[..cut]), None);
    }
    let mut other = data.clone();
    other[0] ^= 1;
    assert_eq!(Startup::decode(&other), None);
    assert_eq!(Startup::decode(&certificate("c").encode()), None);
    assert_eq!(Startup::decode(&[]), None);
}

#[test]
fn certificate_record_is_read_back() {
    let record = certificate("cert1");
    let data = record.encode();
    assert_eq!(&data[..8], &[9, 141, 26, 14, 246, 14, 202, 133]);
    assert_eq!(&data[8..17], &[5, 0, 0, 0, b'c', b'e', b'r', b't', b'1']);
    assert_eq!(&data[data.len() - 32..], &[50u8; 32]);
    assert_eq!(CertificateAccount::decode(&data), Some(record.clone()));
    for cut in 0..data.len() {
        assert_eq!(CertificateAccount::decode(&data[..cut]), None);
    }
    let mut padded = data.clone();
    padded.push(0);
    assert_eq!(CertificateAccount::decode(&padded), Some(record));
}

#[test]
fn registered_startup_has_the_given_fields_and_no_employees() {
    let mut ledger = Ledger::new(1_700_000_000);
    let record = register(&mut ledger, "s1").unwrap();
    assert_eq!(
        record,
        Startup {
            startup_id: "s1".to_string(),
            name: "Acme".to_string(),
            sector: "fintech".to_string(),
            founder_address: id(FOUNDER),
            employee_addresses: Vec::new(),
            registration_timestamp: 1_700_000_000,
        }
    );
    assert_eq!(profile(&ledger, "s1"), Ok(record.clone()));
    assert_eq!(stored(&ledger, "s1"), record.encode());
    let account = ledger.get(&derive_address("startup", "s1", &id(REGISTRY))).unwrap();
    assert_eq!(account.owner, id(REGISTRY));
}

#[test]
fn registration_stamps_the_ledger_time() {
    let mut ledger = Ledger::new(5);
    assert_eq!(register(&mut ledger, "s1").unwrap().registration_timestamp, 5);
    ledger.advance_clock(9);
    assert_eq!(register(&mut ledger, "s2").unwrap().registration_timestamp, 9);
    assert_eq!(profile(&ledger, "s1").unwrap().registration_timestamp, 5);
}

#[test]
fn registering_the_same_id_twice_fails_and_keeps_the_first_record() {
    let mut ledger = Ledger::new(1);
    let first = register(&mut ledger, "s1").unwrap();
    ledger.advance_clock(2);
    let ctx = RegisterStartup { program_id: id(REGISTRY), founder: id(99) };
    let second = register_startup(
        &mut ledger,
        &ctx,
        "s1".to_string(),
        "Other".to_string(),
        "health".to_string(),
    );
    assert_eq!(second, Err(ErrorCode::DuplicateId));
    assert_eq!(profile(&ledger, "s1"), Ok(first.clone()));
    assert_eq!(stored(&ledger, "s1"), first.encode());
}

#[test]
fn two_registries_keep_their_startups_apart() {
    let mut ledger = Ledger::new(1);
    register(&mut ledger, "s1").unwrap();
    let other = RegisterStartup { program_id: id(11), founder: id(FOUNDER) };
    let record = register_startup(
        &mut ledger,
        &other,
        "s1".to_string(),
        "Beta".to_string(),
        "energy".to_string(),
    )
    .unwrap();
    assert_eq!(record.name, "Beta");
    assert_eq!(profile(&ledger, "s1").unwrap().name, "Acme");
    let ctx = GetStartupProfile { program_id: id(11), startup_id: "s1".to_string() };
    assert_eq!(get_startup_profile(&ledger, &ctx), Ok(record));
}

#[test]
fn profile_of_an_unregistered_startup_is_not_found() {
    let mut ledger = Ledger::new(1);
    assert_eq!(profile(&ledger, "s1"), Err(ErrorCode::NotFound));
    register(&mut ledger, "s1").unwrap();
    assert_eq!(profile(&ledger, "s2"), Err(ErrorCode::NotFound));
}

#[test]
fn profile_of_an_account_that_is_no_startup_record_is_not_found() {
    let mut ledger = Ledger::new(1);
    let foreign = derive_address("startup", "foreign", &id(REGISTRY));
    let record = register(&mut Ledger::new(1), "foreign").unwrap();
    assert!(ledger.create(foreign, id(12), record.encode()));
    assert_eq!(profile(&ledger, "foreign"), Err(ErrorCode::NotFound));
    let garbage = derive_address("startup", "garbage", &id(REGISTRY));
    assert!(ledger.create(garbage, id(REGISTRY), vec![1; 64]));
    assert_eq!(profile(&ledger, "garbage"), Err(ErrorCode::NotFound));
}

#[test]
fn employee_with_a_verified_certificate_joins_the_roster() {
    let mut ledger = Ledger::new(1);
    register(&mut ledger, "s1").unwrap();
    issue(&mut ledger, "cert1");
    issue(&mut ledger, "cert2");
    assert_eq!(add(&mut ledger, "s1", "cert1"), Ok(()));
    assert_eq!(profile(&ledger, "s1").unwrap().employee_addresses, vec!["cert1".to_string()]);
    assert_eq!(add(&mut ledger, "s1", "cert2"), Ok(()));
    let record = profile(&ledger, "s1").unwrap();
    assert_eq!(record.employee_addresses, vec!["cert1".to_string(), "cert2".to_string()]);
    assert_eq!(record.name, "Acme");
    assert_eq!(record.sector, "fintech");
    assert_eq!(record.founder_address, id(FOUNDER));
    assert_eq!(record.registration_timestamp, 1);
    assert_eq!(stored(&ledger, "s1"), record.encode());
}

#[test]
fn any_signer_may_add_an_employee() {
    let mut ledger = Ledger::new(1);
    register(&mut ledger, "s1").unwrap();
    issue(&mut ledger, "cert1");
    let ctx = AddEmployee {
        program_id: id(REGISTRY),
        certificate_registry: id(CERTIFICATES),
        startup_id: "s1".to_string(),
        employee: id(77),
    };
    assert_eq!(add_employee(&mut ledger, &ctx, "cert1".to_string()), Ok(()));
}

#[test]
fn employee_without_a_certificate_is_refused_and_the_roster_is_unchanged() {
    let mut ledger = Ledger::new(1);
    register(&mut ledger, "s1").unwrap();
    issue(&mut ledger, "cert1");
    assert_eq!(add(&mut ledger, "s1", "cert1"), Ok(()));
    let before = stored(&ledger, "s1");
    assert_eq!(add(&mut ledger, "s1", "cert9"), Err(ErrorCode::InvalidRecord));
    assert_eq!(stored(&ledger, "s1"), before);
    assert_eq!(profile(&ledger, "s1").unwrap().employee_addresses, vec!["cert1".to_string()]);
}

#[test]
fn certificate_of_another_owner_is_refused() {
    let mut ledger = Ledger::new(1);
    register(&mut ledger, "s1").unwrap();
    let address = derive_address("certificate", "cert1", &id(CERTIFICATES));
    assert!(ledger.create(address, id(21), certificate("cert1").encode()));
    assert_eq!(add(&mut ledger, "s1", "cert1"), Err(ErrorCode::InvalidRecord));
    assert!(profile(&ledger, "s1").unwrap().employee_addresses.is_empty());
}

#[test]
fn certificate_that_holds_another_id_is_refused() {
    let mut ledger = Ledger::new(1);
    register(&mut ledger, "s1").unwrap();
    let address = derive_address("certificate", "cert1", &id(CERTIFICATES));
    assert!(ledger.create(address, id(CERTIFICATES), certificate("cert2").encode()));
    assert_eq!(add(&mut ledger, "s1", "cert1"), Err(ErrorCode::InvalidRecord));
    assert_eq!(add(&mut ledger, "s1", "cert2"), Err(ErrorCode::InvalidRecord));
}

#[test]
fn certificate_that_is_empty_or_malformed_is_refused() {
    let mut ledger = Ledger::new(1);
    register(&mut ledger, "s1").unwrap();
    let empty = derive_address("certificate", "empty", &id(CERTIFICATES));
    assert!(ledger.create(empty, id(CERTIFICATES), Vec::new()));
    let header = derive_address("certificate", "header", &id(CERTIFICATES));
    assert!(ledger.create(header, id(CERTIFICATES), CERTIFICATE_HEADER.to_le_bytes().to_vec()));
    let garbage = derive_address("certificate", "garbage", &id(CERTIFICATES));
    assert!(ledger.create(garbage, id(CERTIFICATES), vec![7; 200]));
    let startup = derive_address("certificate", "startup", &id(CERTIFICATES));
    assert!(ledger.create(startup, id(CERTIFICATES), stored(&ledger, "s1")));
    for certificate_id in ["empty", "header", "garbage", "startup"] {
        assert_eq!(add(&mut ledger, "s1", certificate_id), Err(ErrorCode::InvalidRecord));
    }
    assert!(profile(&ledger, "s1").unwrap().employee_addresses.is_empty());
}

#[test]
fn certificate_with_an_empty_id_is_refused() {
    let mut ledger = Ledger::new(1);
    register(&mut ledger, "s1").unwrap();
    issue(&mut ledger, "");
    assert_eq!(add(&mut ledger, "s1", ""), Err(ErrorCode::InvalidRecord));
    assert_eq!(
        verify_certificate(&ledger, &id(CERTIFICATES), &String::new()),
        Err(ErrorCode::InvalidRecord)
    );
}

#[test]
fn verified_certificate_is_given_with_its_fields() {
    let mut ledger = Ledger::new(1);
    issue(&mut ledger, "cert1");
    assert_eq!(
        verify_certificate(&ledger, &id(CERTIFICATES), &"cert1".to_string()),
        Ok(certificate("cert1"))
    );
    assert_eq!(
        verify_certificate(&ledger, &id(CERTIFICATES), &"cert2".to_string()),
        Err(ErrorCode::InvalidRecord)
    );
    assert_eq!(
        verify_certificate(&ledger, &id(REGISTRY), &"cert1".to_string()),
        Err(ErrorCode::InvalidRecord)
    );
}

#[test]
fn adding_the_same_employee_twice_fails_and_keeps_one_entry() {
    let mut ledger = Ledger::new(1);
    register(&mut ledger, "s1").unwrap();
    issue(&mut ledger, "cert1");
    issue(&mut ledger, "cert2");
    assert_eq!(add(&mut ledger, "s1", "cert1"), Ok(()));
    assert_eq!(add(&mut ledger, "s1", "cert2"), Ok(()));
    let before = stored(&ledger, "s1");
    assert_eq!(add(&mut ledger, "s1", "cert1"), Err(ErrorCode::EmployeeExists));
    assert_eq!(add(&mut ledger, "s1", "cert2"), Err(ErrorCode::EmployeeExists));
    assert_eq!(stored(&ledger, "s1"), before);
    let roster = profile(&ledger, "s1").unwrap().employee_addresses;
    assert_eq!(roster.iter().filter(|entry| entry.as_str() == "cert1").count(), 1);
    assert_eq!(roster, vec!["cert1".to_string(), "cert2".to_string()]);
}

#[test]
fn employee_of_an_unregistered_startup_is_not_found() {
    let mut ledger = Ledger::new(1);
    issue(&mut ledger, "cert1");
    assert_eq!(add(&mut ledger, "s1", "cert1"), Err(ErrorCode::NotFound));
    assert_eq!(add(&mut ledger, "s1", "cert2"), Err(ErrorCode::InvalidRecord));
    assert_eq!(profile(&ledger, "s1"), Err(ErrorCode::NotFound));
}

#[test]
fn rosters_of_two_startups_are_separate() {
    let mut ledger = Ledger::new(1);
    register(&mut ledger, "s1").unwrap();
    register(&mut ledger, "s2").unwrap();
    issue(&mut ledger, "cert1");
    assert_eq!(add(&mut ledger, "s1", "cert1"), Ok(()));
    assert!(profile(&ledger, "s2").unwrap().employee_addresses.is_empty());
    assert_eq!(add(&mut ledger, "s2", "cert1"), Ok(()));
    assert_eq!(profile(&ledger, "s1").unwrap().employee_addresses, vec!["cert1".to_string()]);
    assert_eq!(profile(&ledger, "s2").unwrap().employee_addresses, vec!["cert1".to_string()]);
}
