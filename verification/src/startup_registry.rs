//! The Startup Registry: one record per startup, with the roster of its
//! employees. An employee joins the roster by the identifier of a
//! certificate that the Certificate Registry holds.

use crate::address::{derive_address, derived, AddressView};
use crate::address::{CERTIFICATE_NAMESPACE, STARTUP_NAMESPACE};
use crate::identity::Identity;
use crate::ledger::{Ledger, LedgerView};
use crate::verification::{verified, verify};
use crate::wire::{
    after_header, has_header, lemma_header, lemma_ser_header, lemma_ser_parse_i64,
    lemma_ser_parse_identity, lemma_ser_parse_string, lemma_ser_parse_string_list,
    lemma_parse_ser_i64, lemma_parse_ser_identity, lemma_parse_ser_string,
    lemma_parse_ser_string_list, lemma_parsed_string_fits,
    lemma_parsed_string_list_fits, parse_i64, parse_identity, parse_string, parse_string_list,
    read_header, read_i64, read_identity, read_string, read_string_list, ser_i64,
    ser_string, ser_string_list, ser_u64, string_fits, string_list_fits, strings_view, write_i64,
    write_identity, write_string, write_string_list, write_u64,
};
use vstd::prelude::*;

verus! {

/// The header of a startup record, as the 64-bit integer that its eight
/// bytes spell, least significant byte first.
pub const STARTUP_HEADER: u64 = 0xcf19_284e_cb16_6b63;

/// The header of a certificate record, as the 64-bit integer that its eight
/// bytes spell, least significant byte first.
pub const CERTIFICATE_HEADER: u64 = 0x85ca_0ef6_0e1a_8d09;

/// What a startup record holds.
pub struct StartupView {
    pub startup_id: Seq<char>,
    pub name: Seq<char>,
    pub sector: Seq<char>,
    pub founder_address: Seq<u8>,
    pub employee_addresses: Seq<Seq<char>>,
    pub registration_timestamp: i64,
}

impl StartupView {
    /// Whether the record can be written: its strings and its roster fit
    /// the wire layout.
    pub open spec fn fits(self) -> bool {
        &&& string_fits(self.startup_id)
        &&& string_fits(self.name)
        &&& string_fits(self.sector)
        &&& self.founder_address.len() == 32
        &&& string_list_fits(self.employee_addresses)
    }

    /// The payload of the record, followed by `tail`.
    pub open spec fn payload_before(self, tail: Seq<u8>) -> Seq<u8> {
        ser_u64(STARTUP_HEADER) + (ser_string(self.startup_id) + (ser_string(self.name) + (
        ser_string(self.sector) + (self.founder_address + (ser_string_list(
            self.employee_addresses,
        ) + (ser_i64(self.registration_timestamp) + tail))))))
    }

    /// The payload of the record: header, identifier, name, sector,
    /// founder, roster, time of registration.
    pub open spec fn payload(self) -> Seq<u8> {
        self.payload_before(Seq::<u8>::empty())
    }

    /// The record with `certificate_id` added at the end of its roster.
    pub open spec fn with_employee(self, certificate_id: Seq<char>) -> StartupView {
        StartupView {
            employee_addresses: self.employee_addresses.push(certificate_id),
            ..self
        }
    }

    /// Whether no certificate is on the roster twice.
    pub open spec fn roster_is_unique(self) -> bool {
        self.employee_addresses.no_duplicates()
    }
}

/// The startup record that a payload holds: the fields behind the startup
/// header, whatever follows them.
pub open spec fn parse_startup(bytes: Seq<u8>) -> Option<StartupView> {
    if !has_header(bytes, STARTUP_HEADER) {
        None
    } else {
        let b1 = after_header(bytes);
        match parse_string(b1) {
            None => None,
            Some((startup_id, n1)) => {
                let b2 = b1.skip(n1 as int);
                match parse_string(b2) {
                    None => None,
                    Some((name, n2)) => {
                        let b3 = b2.skip(n2 as int);
                        match parse_string(b3) {
                            None => None,
                            Some((sector, n3)) => {
                                let b4 = b3.skip(n3 as int);
                                match parse_identity(b4) {
                                    None => None,
                                    Some((founder_address, n4)) => {
                                        let b5 = b4.skip(n4 as int);
                                        match parse_string_list(b5) {
                                            None => None,
                                            Some((employee_addresses, n5)) => {
                                                let b6 = b5.skip(n5 as int);
                                                match parse_i64(b6) {
                                                    None => None,
                                                    Some((registration_timestamp, _)) => Some(
                                                        StartupView {
                                                            startup_id,
                                                            name,
                                                            sector,
                                                            founder_address,
                                                            employee_addresses,
                                                            registration_timestamp,
                                                        },
                                                    ),
                                                }
                                            },
                                        }
                                    },
                                }
                            },
                        }
                    },
                }
            },
        }
    }
}

/// A startup record that was written is read back as it was, whatever
/// follows it.
pub proof fn lemma_parse_startup_payload(record: StartupView, tail: Seq<u8>)
    requires
        record.fits(),
    ensures
        parse_startup(record.payload_before(tail)) == Some(record),
{
    let t6 = ser_i64(record.registration_timestamp) + tail;
    let t5 = ser_string_list(record.employee_addresses) + t6;
    let t4 = record.founder_address + t5;
    let t3 = ser_string(record.sector) + t4;
    let t2 = ser_string(record.name) + t3;
    let t1 = ser_string(record.startup_id) + t2;
    lemma_header(STARTUP_HEADER, t1);
    lemma_parse_ser_string(record.startup_id, t2);
    lemma_parse_ser_string(record.name, t3);
    lemma_parse_ser_string(record.sector, t4);
    lemma_parse_ser_identity(record.founder_address, t5);
    lemma_parse_ser_string_list(record.employee_addresses, t6);
    lemma_parse_ser_i64(record.registration_timestamp, tail);
}

/// A startup record that was read can be written again.
pub proof fn lemma_parsed_startup_fits(bytes: Seq<u8>)
    ensures
        parse_startup(bytes) matches Some(record) ==> record.fits(),
{
    reveal(parse_identity);
    if has_header(bytes, STARTUP_HEADER) {
        let b1 = after_header(bytes);
        lemma_parsed_string_fits(b1);
        if let Some((_, n1)) = parse_string(b1) {
            let b2 = b1.skip(n1 as int);
            lemma_parsed_string_fits(b2);
            if let Some((_, n2)) = parse_string(b2) {
                let b3 = b2.skip(n2 as int);
                lemma_parsed_string_fits(b3);
                if let Some((_, n3)) = parse_string(b3) {
                    let b4 = b3.skip(n3 as int);
                    if let Some((_, n4)) = parse_identity(b4) {
                        lemma_parsed_string_list_fits(b4.skip(n4 as int));
                    }
                }
            }
        }
    }
}

/// The bytes that a startup record was read from are its payload, and what
/// follows it: a record that was read, written again, gives the same bytes.
pub proof fn lemma_startup_payload_parsed(bytes: Seq<u8>)
    ensures
        parse_startup(bytes) matches Some(record) ==> exists|tail: Seq<u8>|
            bytes == #[trigger] record.payload_before(tail),
{
    if let Some(record) = parse_startup(bytes) {
        lemma_ser_header(bytes, STARTUP_HEADER);
        let b1 = after_header(bytes);
        lemma_ser_parse_string(b1);
        let b2 = b1.skip(parse_string(b1).unwrap().1 as int);
        lemma_ser_parse_string(b2);
        let b3 = b2.skip(parse_string(b2).unwrap().1 as int);
        lemma_ser_parse_string(b3);
        let b4 = b3.skip(parse_string(b3).unwrap().1 as int);
        lemma_ser_parse_identity(b4);
        let b5 = b4.skip(parse_identity(b4).unwrap().1 as int);
        lemma_ser_parse_string_list(b5);
        let b6 = b5.skip(parse_string_list(b5).unwrap().1 as int);
        lemma_ser_parse_i64(b6);
        let tail = b6.skip(parse_i64(b6).unwrap().1 as int);
        assert(bytes == record.payload_before(tail));
    }
}

/// The record of one startup.
#[derive(Clone, Debug, PartialEq, Eq)]
pub struct Startup {
    pub startup_id: String,
    pub name: String,
    pub sector: String,
    pub founder_address: Identity,
    pub employee_addresses: Vec<String>,
    pub registration_timestamp: i64,
}

impl View for Startup {
    type V = StartupView;

    open spec fn view(&self) -> StartupView {
        StartupView {
            startup_id: self.startup_id@,
            name: self.name@,
            sector: self.sector@,
            founder_address: self.founder_address@,
            employee_addresses: strings_view(self.employee_addresses@),
            registration_timestamp: self.registration_timestamp,
        }
    }
}

impl Startup {
    /// The payload of the record.
    pub fn encode(&self) -> (payload: Vec<u8>)
        requires
            self@.fits(),
        ensures
            payload@ == self@.payload(),
    {
        let ghost whole = self@.payload();
        let ghost t6 = ser_i64(self@.registration_timestamp) + Seq::<u8>::empty();
        let ghost t5 = ser_string_list(self@.employee_addresses) + t6;
        let ghost t4 = self@.founder_address + t5;
        let ghost t3 = ser_string(self@.sector) + t4;
        let ghost t2 = ser_string(self@.name) + t3;
        let ghost t1 = ser_string(self@.startup_id) + t2;
        let mut out: Vec<u8> = Vec::new();
        write_u64(&mut out, STARTUP_HEADER);
        assert(out@ + t1 =~= whole);
        write_string(&mut out, self.startup_id.as_str());
        assert(out@ + t2 =~= whole);
        write_string(&mut out, self.name.as_str());
        assert(out@ + t3 =~= whole);
        write_string(&mut out, self.sector.as_str());
        assert(out@ + t4 =~= whole);
        write_identity(&mut out, &self.founder_address);
        assert(out@ + t5 =~= whole);
        write_string_list(&mut out, &self.employee_addresses);
        assert(out@ + t6 =~= whole);
        write_i64(&mut out, self.registration_timestamp);
        assert(out@ =~= whole);
        out
    }

    /// The startup record that `data` holds, if it holds one.
    pub fn decode(data: &[u8]) -> (record: Option<Startup>)
        ensures
            match parse_startup(data@) {
                Some(held) => record matches Some(found) && found@ == held,
                None => record is None,
            },
    {
        let at1 = match read_header(data, STARTUP_HEADER) {
            Some(at1) => at1,
            None => {
                return None;
            },
        };
        let (startup_id, at2) = match read_string(data, at1) {
            Some(field) => field,
            None => {
                return None;
            },
        };
        assert(data@.skip(at1 as int).skip(at2 - at1) =~= data@.skip(at2 as int));
        let (name, at3) = match read_string(data, at2) {
            Some(field) => field,
            None => {
                return None;
            },
        };
        assert(data@.skip(at2 as int).skip(at3 - at2) =~= data@.skip(at3 as int));
        let (sector, at4) = match read_string(data, at3) {
            Some(field) => field,
            None => {
                return None;
            },
        };
        assert(data@.skip(at3 as int).skip(at4 - at3) =~= data@.skip(at4 as int));
        let (founder_address, at5) = match read_identity(data, at4) {
            Some(field) => field,
            None => {
                return None;
            },
        };
        assert(data@.skip(at4 as int).skip(at5 - at4) =~= data@.skip(at5 as int));
        let (employee_addresses, at6) = match read_string_list(data, at5) {
            Some(field) => field,
            None => {
                return None;
            },
        };
        assert(data@.skip(at5 as int).skip(at6 - at5) =~= data@.skip(at6 as int));
        let (registration_timestamp, _) = match read_i64(data, at6) {
            Some(field) => field,
            None => {
                return None;
            },
        };
        Some(
            Startup {
                startup_id,
                name,
                sector,
                founder_address,
                employee_addresses,
                registration_timestamp,
            },
        )
    }
}


/// What a certificate record holds.
pub struct CertificateView {
    pub certificate_id: Seq<char>,
    pub student_name: Seq<char>,
    pub degree: Seq<char>,
    pub university: Seq<char>,
    pub graduation_date: Seq<char>,
    pub certificate_hash: Seq<char>,
    pub issue_timestamp: i64,
    pub authority: Seq<u8>,
}

impl CertificateView {
    /// Whether the record can be written: its strings fit the wire layout.
    pub open spec fn fits(self) -> bool {
        &&& string_fits(self.certificate_id)
        &&& string_fits(self.student_name)
        &&& string_fits(self.degree)
        &&& string_fits(self.university)
        &&& string_fits(self.graduation_date)
        &&& string_fits(self.certificate_hash)
        &&& self.authority.len() == 32
    }

    /// The payload of the record, followed by `tail`.
    pub open spec fn payload_before(self, tail: Seq<u8>) -> Seq<u8> {
        ser_u64(CERTIFICATE_HEADER) + (ser_string(self.certificate_id) + (ser_string(
            self.student_name,
        ) + (ser_string(self.degree) + (ser_string(self.university) + (ser_string(
            self.graduation_date,
        ) + (ser_string(self.certificate_hash) + (ser_i64(self.issue_timestamp) + (self.authority
            + tail))))))))
    }

    /// The payload of the record: header, identifier, student, degree,
    /// university, date of graduation, hash, time of issue, authority.
    pub open spec fn payload(self) -> Seq<u8> {
        self.payload_before(Seq::<u8>::empty())
    }
}

/// The certificate record that a payload holds: the fields behind the
/// certificate header, whatever follows them.
pub open spec fn parse_certificate(bytes: Seq<u8>) -> Option<CertificateView> {
    if !has_header(bytes, CERTIFICATE_HEADER) {
        None
    } else {
        let b1 = after_header(bytes);
        match parse_string(b1) {
            None => None,
            Some((certificate_id, n1)) => {
                let b2 = b1.skip(n1 as int);
                match parse_string(b2) {
                    None => None,
                    Some((student_name, n2)) => {
                        let b3 = b2.skip(n2 as int);
                        match parse_string(b3) {
                            None => None,
                            Some((degree, n3)) => {
                                let b4 = b3.skip(n3 as int);
                                match parse_string(b4) {
                                    None => None,
                                    Some((university, n4)) => {
                                        let b5 = b4.skip(n4 as int);
                                        match parse_string(b5) {
                                            None => None,
                                            Some((graduation_date, n5)) => {
                                                let b6 = b5.skip(n5 as int);
                                                match parse_string(b6) {
                                                    None => None,
                                                    Some((certificate_hash, n6)) => {
                                                        let b7 = b6.skip(n6 as int);
                                                        match parse_i64(b7) {
                                                            None => None,
                                                            Some((issue_timestamp, n7)) => {
                                                                match parse_identity(
                                                                    b7.skip(n7 as int),
                                                                ) {
                                                                    None => None,
                                                                    Some((authority, _)) => Some(
                                                                        CertificateView {
                                                                            certificate_id,
                                                                            student_name,
                                                                            degree,
                                                                            university,
                                                                            graduation_date,
                                                                            certificate_hash,
                                                                            issue_timestamp,
                                                                            authority,
                                                                        },
                                                                    ),
                                                                }
                                                            },
                                                        }
                                                    },
                                                }
                                            },
                                        }
                                    },
                                }
                            },
                        }
                    },
                }
            },
        }
    }
}

/// A certificate record that was written is read back as it was, whatever
/// follows it.
pub proof fn lemma_parse_certificate_payload(record: CertificateView, tail: Seq<u8>)
    requires
        record.fits(),
    ensures
        parse_certificate(record.payload_before(tail)) == Some(record),
{
    let t8 = record.authority + tail;
    let t7 = ser_i64(record.issue_timestamp) + t8;
    let t6 = ser_string(record.certificate_hash) + t7;
    let t5 = ser_string(record.graduation_date) + t6;
    let t4 = ser_string(record.university) + t5;
    let t3 = ser_string(record.degree) + t4;
    let t2 = ser_string(record.student_name) + t3;
    let t1 = ser_string(record.certificate_id) + t2;
    lemma_header(CERTIFICATE_HEADER, t1);
    lemma_parse_ser_string(record.certificate_id, t2);
    lemma_parse_ser_string(record.student_name, t3);
    lemma_parse_ser_string(record.degree, t4);
    lemma_parse_ser_string(record.university, t5);
    lemma_parse_ser_string(record.graduation_date, t6);
    lemma_parse_ser_string(record.certificate_hash, t7);
    lemma_parse_ser_i64(record.issue_timestamp, t8);
    lemma_parse_ser_identity(record.authority, tail);
}

/// The bytes that a certificate record was read from are its payload, and
/// what follows it: a record that was read, written again, gives the same
/// bytes.
pub proof fn lemma_certificate_payload_parsed(bytes: Seq<u8>)
    ensures
        parse_certificate(bytes) matches Some(record) ==> exists|tail: Seq<u8>|
            bytes == #[trigger] record.payload_before(tail),
{
    if let Some(record) = parse_certificate(bytes) {
        lemma_ser_header(bytes, CERTIFICATE_HEADER);
        let b1 = after_header(bytes);
        lemma_ser_parse_string(b1);
        let b2 = b1.skip(parse_string(b1).unwrap().1 as int);
        lemma_ser_parse_string(b2);
        let b3 = b2.skip(parse_string(b2).unwrap().1 as int);
        lemma_ser_parse_string(b3);
        let b4 = b3.skip(parse_string(b3).unwrap().1 as int);
        lemma_ser_parse_string(b4);
        let b5 = b4.skip(parse_string(b4).unwrap().1 as int);
        lemma_ser_parse_string(b5);
        let b6 = b5.skip(parse_string(b5).unwrap().1 as int);
        lemma_ser_parse_string(b6);
        let b7 = b6.skip(parse_string(b6).unwrap().1 as int);
        lemma_ser_parse_i64(b7);
        let b8 = b7.skip(parse_i64(b7).unwrap().1 as int);
        lemma_ser_parse_identity(b8);
        let tail = b8.skip(parse_identity(b8).unwrap().1 as int);
        assert(bytes == record.payload_before(tail));
    }
}

/// The identifier of a certificate record that was read can be written
/// again.
pub proof fn lemma_parsed_certificate_id_fits(bytes: Seq<u8>)
    ensures
        parse_certificate(bytes) matches Some(record) ==> string_fits(record.certificate_id),
{
    lemma_parsed_string_fits(after_header(bytes));
}

/// A record of the Certificate Registry, as the Startup Registry reads it.
#[derive(Clone, Debug, PartialEq, Eq)]
pub struct CertificateAccount {
    pub certificate_id: String,
    pub student_name: String,
    pub degree: String,
    pub university: String,
    pub graduation_date: String,
    pub certificate_hash: String,
    pub issue_timestamp: i64,
    pub authority: Identity,
}

impl View for CertificateAccount {
    type V = CertificateView;

    open spec fn view(&self) -> CertificateView {
        CertificateView {
            certificate_id: self.certificate_id@,
            student_name: self.student_name@,
            degree: self.degree@,
            university: self.university@,
            graduation_date: self.graduation_date@,
            certificate_hash: self.certificate_hash@,
            issue_timestamp: self.issue_timestamp,
            authority: self.authority@,
        }
    }
}

impl CertificateAccount {
    /// The payload of the record.
    pub fn encode(&self) -> (payload: Vec<u8>)
        requires
            self@.fits(),
        ensures
            payload@ == self@.payload(),
    {
        let ghost whole = self@.payload();
        let ghost t8 = self@.authority + Seq::<u8>::empty();
        let ghost t7 = ser_i64(self@.issue_timestamp) + t8;
        let ghost t6 = ser_string(self@.certificate_hash) + t7;
        let ghost t5 = ser_string(self@.graduation_date) + t6;
        let ghost t4 = ser_string(self@.university) + t5;
        let ghost t3 = ser_string(self@.degree) + t4;
        let ghost t2 = ser_string(self@.student_name) + t3;
        let ghost t1 = ser_string(self@.certificate_id) + t2;
        let mut out: Vec<u8> = Vec::new();
        write_u64(&mut out, CERTIFICATE_HEADER);
        assert(out@ + t1 =~= whole);
        write_string(&mut out, self.certificate_id.as_str());
        assert(out@ + t2 =~= whole);
        write_string(&mut out, self.student_name.as_str());
        assert(out@ + t3 =~= whole);
        write_string(&mut out, self.degree.as_str());
        assert(out@ + t4 =~= whole);
        write_string(&mut out, self.university.as_str());
        assert(out@ + t5 =~= whole);
        write_string(&mut out, self.graduation_date.as_str());
        assert(out@ + t6 =~= whole);
        write_string(&mut out, self.certificate_hash.as_str());
        assert(out@ + t7 =~= whole);
        write_i64(&mut out, self.issue_timestamp);
        assert(out@ + t8 =~= whole);
        write_identity(&mut out, &self.authority);
        assert(out@ =~= whole);
        out
    }

    /// The certificate record that `data` holds, if it holds one.
    pub fn decode(data: &[u8]) -> (record: Option<CertificateAccount>)
        ensures
            match parse_certificate(data@) {
                Some(held) => record matches Some(found) && found@ == held,
                None => record is None,
            },
    {
        let at1 = match read_header(data, CERTIFICATE_HEADER) {
            Some(at1) => at1,
            None => {
                return None;
            },
        };
        let (certificate_id, at2) = match read_string(data, at1) {
            Some(field) => field,
            None => {
                return None;
            },
        };
        assert(data@.skip(at1 as int).skip(at2 - at1) =~= data@.skip(at2 as int));
        let (student_name, at3) = match read_string(data, at2) {
            Some(field) => field,
            None => {
                return None;
            },
        };
        assert(data@.skip(at2 as int).skip(at3 - at2) =~= data@.skip(at3 as int));
        let (degree, at4) = match read_string(data, at3) {
            Some(field) => field,
            None => {
                return None;
            },
        };
        assert(data@.skip(at3 as int).skip(at4 - at3) =~= data@.skip(at4 as int));
        let (university, at5) = match read_string(data, at4) {
            Some(field) => field,
            None => {
                return None;
            },
        };
        assert(data@.skip(at4 as int).skip(at5 - at4) =~= data@.skip(at5 as int));
        let (graduation_date, at6) = match read_string(data, at5) {
            Some(field) => field,
            None => {
                return None;
            },
        };
        assert(data@.skip(at5 as int).skip(at6 - at5) =~= data@.skip(at6 as int));
        let (certificate_hash, at7) = match read_string(data, at6) {
            Some(field) => field,
            None => {
                return None;
            },
        };
        assert(data@.skip(at6 as int).skip(at7 - at6) =~= data@.skip(at7 as int));
        let (issue_timestamp, at8) = match read_i64(data, at7) {
            Some(field) => field,
            None => {
                return None;
            },
        };
        assert(data@.skip(at7 as int).skip(at8 - at7) =~= data@.skip(at8 as int));
        let (authority, _) = match read_identity(data, at8) {
            Some(field) => field,
            None => {
                return None;
            },
        };
        Some(
            CertificateAccount {
                certificate_id,
                student_name,
                degree,
                university,
                graduation_date,
                certificate_hash,
                issue_timestamp,
                authority,
            },
        )
    }
}


/// Why an operation of the Startup Registry failed.
#[derive(Clone, Copy, Debug, PartialEq, Eq)]
pub enum ErrorCode {
    /// The certificate that was referred to is missing, is not owned by the
    /// Certificate Registry, is empty, or holds another identifier.
    InvalidRecord,
    /// A startup is already registered under the identifier.
    DuplicateId,
    /// The certificate is already on the roster.
    EmployeeExists,
    /// No startup is registered under the identifier.
    NotFound,
}

/// The call that registers a startup: the registry that is called, and the
/// founder who signs.
#[derive(Clone, Copy, Debug, PartialEq, Eq)]
pub struct RegisterStartup {
    pub program_id: Identity,
    pub founder: Identity,
}

/// The call that adds an employee: the registry that is called, the
/// certificate registry that it trusts, the startup, and the signer.
#[derive(Clone, Debug, PartialEq, Eq)]
pub struct AddEmployee {
    pub program_id: Identity,
    pub certificate_registry: Identity,
    pub startup_id: String,
    pub employee: Identity,
}

/// The call that reads a startup's profile: the registry that is called,
/// and the startup.
#[derive(Clone, Debug, PartialEq, Eq)]
pub struct GetStartupProfile {
    pub program_id: Identity,
    pub startup_id: String,
}

/// Where the registry `program` keeps the startup `startup_id`.
pub open spec fn startup_address(program: Seq<u8>, startup_id: Seq<char>) -> AddressView {
    derived(STARTUP_NAMESPACE@, startup_id, program)
}

/// Where the certificate registry `registry` keeps the certificate
/// `certificate_id`.
pub open spec fn certificate_address(registry: Seq<u8>, certificate_id: Seq<char>)
    -> AddressView {
    derived(CERTIFICATE_NAMESPACE@, certificate_id, registry)
}

/// The startup record that the registry `program` holds under `startup_id`:
/// the record in the account at the startup's address, if the registry owns
/// that account.
pub open spec fn stored_startup(ledger: LedgerView, program: Seq<u8>, startup_id: Seq<char>)
    -> Option<StartupView> {
    let address = startup_address(program, startup_id);
    if ledger.occupied(address) && ledger.accounts[address].owner == program {
        parse_startup(ledger.accounts[address].data)
    } else {
        None
    }
}

/// The certificate that stands behind `certificate_id`: the record in the
/// verified account at the certificate's address, if its own identifier is
/// `certificate_id` and is not empty.
pub open spec fn verified_certificate(
    ledger: LedgerView,
    registry: Seq<u8>,
    certificate_id: Seq<char>,
) -> Option<CertificateView> {
    let address = certificate_address(registry, certificate_id);
    if verified(ledger, address, registry) {
        match parse_certificate(ledger.accounts[address].data) {
            Some(record) => if record.certificate_id == certificate_id && certificate_id.len()
                > 0 {
                Some(record)
            } else {
                None
            },
            None => None,
        }
    } else {
        None
    }
}

/// The record of a startup at its registration: no employees yet.
pub open spec fn new_startup(
    startup_id: Seq<char>,
    name: Seq<char>,
    sector: Seq<char>,
    founder: Seq<u8>,
    now: i64,
) -> StartupView {
    StartupView {
        startup_id,
        name,
        sector,
        founder_address: founder,
        employee_addresses: Seq::<Seq<char>>::empty(),
        registration_timestamp: now,
    }
}

/// What registering a startup returns: the new record, stamped with the
/// ledger time, unless the startup's address is occupied.
pub open spec fn register_startup_outcome(
    ledger: LedgerView,
    program: Seq<u8>,
    founder: Seq<u8>,
    startup_id: Seq<char>,
    name: Seq<char>,
    sector: Seq<char>,
) -> Result<StartupView, ErrorCode> {
    if ledger.occupied(startup_address(program, startup_id)) {
        Err(ErrorCode::DuplicateId)
    } else {
        Ok(new_startup(startup_id, name, sector, founder, ledger.now))
    }
}

/// The ledger after registering a startup: with the new record at the
/// startup's address, owned by the registry, or unchanged on failure.
pub open spec fn register_startup_ledger(
    ledger: LedgerView,
    program: Seq<u8>,
    founder: Seq<u8>,
    startup_id: Seq<char>,
    name: Seq<char>,
    sector: Seq<char>,
) -> LedgerView {
    match register_startup_outcome(ledger, program, founder, startup_id, name, sector) {
        Ok(record) => ledger.with_account(
            startup_address(program, startup_id),
            program,
            record.payload(),
        ),
        Err(_) => ledger,
    }
}

/// What reading a startup's profile returns: the stored record.
pub open spec fn startup_profile(ledger: LedgerView, program: Seq<u8>, startup_id: Seq<char>)
    -> Result<StartupView, ErrorCode> {
    match stored_startup(ledger, program, startup_id) {
        Some(record) => Ok(record),
        None => Err(ErrorCode::NotFound),
    }
}

/// What adding an employee returns. The certificate is verified first, then
/// the startup is looked up, then the roster is searched.
pub open spec fn add_employee_outcome(
    ledger: LedgerView,
    program: Seq<u8>,
    registry: Seq<u8>,
    startup_id: Seq<char>,
    certificate_id: Seq<char>,
) -> Result<(), ErrorCode> {
    if verified_certificate(ledger, registry, certificate_id) is None {
        Err(ErrorCode::InvalidRecord)
    } else {
        match stored_startup(ledger, program, startup_id) {
            None => Err(ErrorCode::NotFound),
            Some(record) => if record.employee_addresses.contains(certificate_id) {
                Err(ErrorCode::EmployeeExists)
            } else {
                Ok(())
            },
        }
    }
}

/// The ledger after adding an employee: with the certificate at the end of
/// the startup's roster, or unchanged on failure.
pub open spec fn add_employee_ledger(
    ledger: LedgerView,
    program: Seq<u8>,
    registry: Seq<u8>,
    startup_id: Seq<char>,
    certificate_id: Seq<char>,
) -> LedgerView {
    match add_employee_outcome(ledger, program, registry, startup_id, certificate_id) {
        Ok(_) => ledger.with_account(
            startup_address(program, startup_id),
            program,
            stored_startup(ledger, program, startup_id).unwrap().with_employee(
                certificate_id,
            ).payload(),
        ),
        Err(_) => ledger,
    }
}

/// Whether the roster of the startup, if there is one, can take one more
/// entry: the wire layout counts the entries in 32 bits.
pub open spec fn roster_has_room(ledger: LedgerView, program: Seq<u8>, startup_id: Seq<char>)
    -> bool {
    stored_startup(ledger, program, startup_id) matches Some(record)
        ==> record.employee_addresses.len() < u32::MAX
}

fn load_startup(ledger: &Ledger, program: &Identity, startup_id: &str) -> (found: Option<Startup>)
    ensures
        match stored_startup(ledger@, program@, startup_id@) {
            Some(held) => found matches Some(record) && record@ == held,
            None => found is None,
        },
{
    let address = derive_address(STARTUP_NAMESPACE, startup_id, program);
    match ledger.get(&address) {
        None => None,
        Some(account) => {
            if account.owner.matches(program) {
                Startup::decode(account.data.as_slice())
            } else {
                None
            }
        },
    }
}

fn on_roster(roster: &Vec<String>, certificate_id: &String) -> (present: bool)
    ensures
        present == strings_view(roster@).contains(certificate_id@),
{
    let mut i: usize = 0;
    while i < roster.len()
        invariant
            i <= roster.len(),
            forall|j: int| 0 <= j < i ==> strings_view(roster@)[j] != certificate_id@,
        decreases roster.len() - i,
    {
        if roster[i] == *certificate_id {
            assert(strings_view(roster@)[i as int] == certificate_id@);
            return true;
        }
        i = i + 1;
    }
    false
}

/// Verifies the certificate `certificate_id` of the certificate registry
/// `registry`: the account at the certificate's address is verified, and
/// the record in it must carry the same identifier, which must not be
/// empty.
pub fn verify_certificate(ledger: &Ledger, registry: &Identity, certificate_id: &String) -> (outcome:
    Result<CertificateAccount, ErrorCode>)
    ensures
        match verified_certificate(ledger@, registry@, certificate_id@) {
            Some(held) => outcome matches Ok(record) && record@ == held,
            None => outcome == Err::<CertificateAccount, ErrorCode>(ErrorCode::InvalidRecord),
        },
{
    let address = derive_address(CERTIFICATE_NAMESPACE, certificate_id.as_str(), registry);
    match verify(ledger, &address, registry) {
        Err(_) => Err(ErrorCode::InvalidRecord),
        Ok(account) => match CertificateAccount::decode(account.data.as_slice()) {
            None => Err(ErrorCode::InvalidRecord),
            Some(record) => {
                if record.certificate_id == *certificate_id && !certificate_id.as_str().is_empty() {
                    Ok(record)
                } else {
                    Err(ErrorCode::InvalidRecord)
                }
            },
        },
    }
}

/// Registers a new startup under `startup_id`, with no employees and the
/// ledger time as its time of registration, and gives its record. Fails
/// with `DuplicateId`, and changes nothing, if the startup's address is
/// occupied.
pub fn register_startup(
    ledger: &mut Ledger,
    ctx: &RegisterStartup,
    startup_id: String,
    name: String,
    sector: String,
) -> (outcome: Result<Startup, ErrorCode>)
    requires
        string_fits(startup_id@),
        string_fits(name@),
        string_fits(sector@),
    ensures
        final(ledger)@ == register_startup_ledger(
            old(ledger)@,
            ctx.program_id@,
            ctx.founder@,
            startup_id@,
            name@,
            sector@,
        ),
        match outcome {
            Ok(record) => register_startup_outcome(
                old(ledger)@,
                ctx.program_id@,
                ctx.founder@,
                startup_id@,
                name@,
                sector@,
            ) == Ok::<StartupView, ErrorCode>(record@),
            Err(error) => register_startup_outcome(
                old(ledger)@,
                ctx.program_id@,
                ctx.founder@,
                startup_id@,
                name@,
                sector@,
            ) == Err::<StartupView, ErrorCode>(error),
        },
{
    let address = derive_address(STARTUP_NAMESPACE, startup_id.as_str(), &ctx.program_id);
    if ledger.is_occupied(&address) {
        return Err(ErrorCode::DuplicateId);
    }
    let record = Startup {
        startup_id,
        name,
        sector,
        founder_address: ctx.founder,
        employee_addresses: Vec::new(),
        registration_timestamp: ledger.unix_timestamp(),
    };
    assert(record@.employee_addresses =~= Seq::<Seq<char>>::empty());
    let payload = record.encode();
    let _ = ledger.create(address, ctx.program_id, payload);
    Ok(record)
}

/// Adds the certificate `certificate_id` at the end of the roster of the
/// startup `ctx.startup_id`. Any signer may do so. Fails, and changes
/// nothing, with `InvalidRecord` if the certificate does not verify, with
/// `NotFound` if the startup is not registered, and with `EmployeeExists`
/// if the certificate is on the roster already.
pub fn add_employee(ledger: &mut Ledger, ctx: &AddEmployee, certificate_id: String) -> (outcome:
    Result<(), ErrorCode>)
    requires
        roster_has_room(old(ledger)@, ctx.program_id@, ctx.startup_id@),
    ensures
        outcome == add_employee_outcome(
            old(ledger)@,
            ctx.program_id@,
            ctx.certificate_registry@,
            ctx.startup_id@,
            certificate_id@,
        ),
        final(ledger)@ == add_employee_ledger(
            old(ledger)@,
            ctx.program_id@,
            ctx.certificate_registry@,
            ctx.startup_id@,
            certificate_id@,
        ),
{
    if verify_certificate(ledger, &ctx.certificate_registry, &certificate_id).is_err() {
        return Err(ErrorCode::InvalidRecord);
    }
    let mut record = match load_startup(ledger, &ctx.program_id, ctx.startup_id.as_str()) {
        Some(record) => record,
        None => {
            return Err(ErrorCode::NotFound);
        },
    };
    if on_roster(&record.employee_addresses, &certificate_id) {
        return Err(ErrorCode::EmployeeExists);
    }
    let ghost held = record@;
    let address = derive_address(STARTUP_NAMESPACE, ctx.startup_id.as_str(), &ctx.program_id);
    proof {
        lemma_parsed_startup_fits(ledger@.accounts[address@].data);
        lemma_parsed_certificate_id_fits(
            ledger@.accounts[certificate_address(ctx.certificate_registry@, certificate_id@)].data,
        );
    }
    record.employee_addresses.push(certificate_id);
    assert(record@.employee_addresses =~= held.employee_addresses.push(certificate_id@));
    assert(record@ == held.with_employee(certificate_id@));
    let payload = record.encode();
    let _ = ledger.write(&address, &ctx.program_id, payload);
    Ok(())
}

/// Reads the record of the startup `ctx.startup_id`. Fails with `NotFound`
/// if the startup is not registered.
pub fn get_startup_profile(ledger: &Ledger, ctx: &GetStartupProfile) -> (outcome: Result<
    Startup,
    ErrorCode,
>)
    ensures
        match outcome {
            Ok(record) => startup_profile(ledger@, ctx.program_id@, ctx.startup_id@) == Ok::<
                StartupView,
                ErrorCode,
            >(record@),
            Err(error) => startup_profile(ledger@, ctx.program_id@, ctx.startup_id@) == Err::<
                StartupView,
                ErrorCode,
            >(error),
        },
{
    match load_startup(ledger, &ctx.program_id, ctx.startup_id.as_str()) {
        Some(record) => Ok(record),
        None => Err(ErrorCode::NotFound),
    }
}


/// Whether `certificate_id` is on the roster exactly once.
pub open spec fn on_roster_once(roster: Seq<Seq<char>>, certificate_id: Seq<char>) -> bool {
    exists|i: int|
        0 <= i < roster.len() && #[trigger] roster[i] == certificate_id && forall|j: int|
            0 <= j < roster.len() && #[trigger] roster[j] == certificate_id ==> j == i
}

/// A startup whose address is free can be registered, and its profile is
/// then the record that was registered: the identifier, name and sector
/// that were given, the founder who signed, the ledger time, and an empty
/// roster.
pub proof fn lemma_registered_startup_is_read_back(
    ledger: LedgerView,
    program: Seq<u8>,
    founder: Seq<u8>,
    startup_id: Seq<char>,
    name: Seq<char>,
    sector: Seq<char>,
)
    requires
        !ledger.occupied(startup_address(program, startup_id)),
        string_fits(startup_id),
        string_fits(name),
        string_fits(sector),
        founder.len() == 32,
    ensures
        register_startup_outcome(ledger, program, founder, startup_id, name, sector) == Ok::<
            StartupView,
            ErrorCode,
        >(new_startup(startup_id, name, sector, founder, ledger.now)),
        startup_profile(
            register_startup_ledger(ledger, program, founder, startup_id, name, sector),
            program,
            startup_id,
        ) == Ok::<StartupView, ErrorCode>(
            new_startup(startup_id, name, sector, founder, ledger.now),
        ),
        new_startup(startup_id, name, sector, founder, ledger.now).employee_addresses.len() == 0,
{
    let record = new_startup(startup_id, name, sector, founder, ledger.now);
    lemma_parse_startup_payload(record, Seq::<u8>::empty());
}

/// Once a startup is registered, registering the same identifier again
/// fails with `DuplicateId`, whatever name, sector and founder are given,
/// and leaves the ledger, and so the first record, as they were.
pub proof fn lemma_second_registration_fails(
    ledger: LedgerView,
    program: Seq<u8>,
    founder: Seq<u8>,
    startup_id: Seq<char>,
    name: Seq<char>,
    sector: Seq<char>,
    second_founder: Seq<u8>,
    second_name: Seq<char>,
    second_sector: Seq<char>,
)
    requires
        register_startup_outcome(ledger, program, founder, startup_id, name, sector) is Ok,
        string_fits(startup_id),
        string_fits(name),
        string_fits(sector),
        founder.len() == 32,
    ensures
        ({
            let first = register_startup_outcome(
                ledger,
                program,
                founder,
                startup_id,
                name,
                sector,
            );
            let after = register_startup_ledger(
                ledger,
                program,
                founder,
                startup_id,
                name,
                sector,
            );
            &&& register_startup_outcome(
                after,
                program,
                second_founder,
                startup_id,
                second_name,
                second_sector,
            ) == Err::<StartupView, ErrorCode>(ErrorCode::DuplicateId)
            &&& register_startup_ledger(
                after,
                program,
                second_founder,
                startup_id,
                second_name,
                second_sector,
            ) == after
            &&& startup_profile(after, program, startup_id) == first
        }),
{
    lemma_registered_startup_is_read_back(ledger, program, founder, startup_id, name, sector);
}

/// A certificate that does not verify is refused with `InvalidRecord`, and
/// the ledger, and so every roster, stays as it was.
pub proof fn lemma_unverified_certificate_is_refused(
    ledger: LedgerView,
    program: Seq<u8>,
    registry: Seq<u8>,
    startup_id: Seq<char>,
    certificate_id: Seq<char>,
)
    requires
        verified_certificate(ledger, registry, certificate_id) is None,
    ensures
        add_employee_outcome(ledger, program, registry, startup_id, certificate_id) == Err::<
            (),
            ErrorCode,
        >(ErrorCode::InvalidRecord),
        add_employee_ledger(ledger, program, registry, startup_id, certificate_id) == ledger,
{
}

/// After an employee is added, the startup's profile is the record it was
/// before with the certificate at the end of the roster, and the
/// certificate is on the roster exactly once.
pub proof fn lemma_added_employee_is_read_back(
    ledger: LedgerView,
    program: Seq<u8>,
    registry: Seq<u8>,
    startup_id: Seq<char>,
    certificate_id: Seq<char>,
)
    requires
        add_employee_outcome(ledger, program, registry, startup_id, certificate_id) is Ok,
        roster_has_room(ledger, program, startup_id),
    ensures
        ({
            let before = stored_startup(ledger, program, startup_id);
            let after = add_employee_ledger(ledger, program, registry, startup_id, certificate_id);
            &&& before is Some
            &&& startup_profile(after, program, startup_id) == Ok::<StartupView, ErrorCode>(
                before.unwrap().with_employee(certificate_id),
            )
            &&& on_roster_once(
                before.unwrap().with_employee(certificate_id).employee_addresses,
                certificate_id,
            )
            &&& verified_certificate(after, registry, certificate_id) == verified_certificate(
                ledger,
                registry,
                certificate_id,
            )
        }),
{
    let home = startup_address(program, startup_id);
    let source = certificate_address(registry, certificate_id);
    let before = stored_startup(ledger, program, startup_id).unwrap();
    let record = before.with_employee(certificate_id);
    crate::address::lemma_namespaces_differ();
    assert(home != source);
    lemma_parsed_startup_fits(ledger.accounts[home].data);
    lemma_parsed_certificate_id_fits(ledger.accounts[source].data);
    assert(record.fits());
    lemma_parse_startup_payload(record, Seq::<u8>::empty());
    let last = record.employee_addresses.len() - 1;
    assert(record.employee_addresses[last] == certificate_id);
    assert forall|j: int|
        0 <= j < record.employee_addresses.len() && #[trigger] record.employee_addresses[j]
            == certificate_id implies j == last by {
        if j < last {
            assert(before.employee_addresses[j] == certificate_id);
        }
    }
}

/// Once an employee is added, adding the same certificate again fails with
/// `EmployeeExists` and leaves the ledger as it was: the certificate stays
/// on the roster exactly once.
pub proof fn lemma_second_addition_fails(
    ledger: LedgerView,
    program: Seq<u8>,
    registry: Seq<u8>,
    startup_id: Seq<char>,
    certificate_id: Seq<char>,
)
    requires
        add_employee_outcome(ledger, program, registry, startup_id, certificate_id) is Ok,
        roster_has_room(ledger, program, startup_id),
    ensures
        ({
            let after = add_employee_ledger(ledger, program, registry, startup_id, certificate_id);
            &&& add_employee_outcome(after, program, registry, startup_id, certificate_id) == Err::<
                (),
                ErrorCode,
            >(ErrorCode::EmployeeExists)
            &&& add_employee_ledger(after, program, registry, startup_id, certificate_id) == after
            &&& stored_startup(after, program, startup_id) matches Some(record) && on_roster_once(
                record.employee_addresses,
                certificate_id,
            )
        }),
{
    lemma_added_employee_is_read_back(ledger, program, registry, startup_id, certificate_id);
    let record = stored_startup(ledger, program, startup_id).unwrap().with_employee(
        certificate_id,
    );
    assert(record.employee_addresses[record.employee_addresses.len() - 1] == certificate_id);
}

/// A roster on which no certificate stands twice stays so when an employee
/// is added.
pub proof fn lemma_roster_stays_unique(
    ledger: LedgerView,
    program: Seq<u8>,
    registry: Seq<u8>,
    startup_id: Seq<char>,
    certificate_id: Seq<char>,
)
    requires
        add_employee_outcome(ledger, program, registry, startup_id, certificate_id) is Ok,
        roster_has_room(ledger, program, startup_id),
        stored_startup(ledger, program, startup_id).unwrap().roster_is_unique(),
    ensures
        stored_startup(
            add_employee_ledger(ledger, program, registry, startup_id, certificate_id),
            program,
            startup_id,
        ) matches Some(record) && record.roster_is_unique(),
{
    lemma_added_employee_is_read_back(ledger, program, registry, startup_id, certificate_id);
    let before = stored_startup(ledger, program, startup_id).unwrap();
    let record = before.with_employee(certificate_id);
    assert forall|i: int, j: int|
        0 <= i < record.employee_addresses.len() && 0 <= j < record.employee_addresses.len() && i
            != j implies record.employee_addresses[i] != record.employee_addresses[j] by {
        if i < before.employee_addresses.len() {
            assert(before.employee_addresses[i] == record.employee_addresses[i]);
        }
        if j < before.employee_addresses.len() {
            assert(before.employee_addresses[j] == record.employee_addresses[j]);
        }
    }
}


/// Registering a startup deletes nothing and changes no account that was
/// there before.
pub proof fn lemma_registration_keeps_accounts(
    ledger: LedgerView,
    program: Seq<u8>,
    founder: Seq<u8>,
    startup_id: Seq<char>,
    name: Seq<char>,
    sector: Seq<char>,
    address: AddressView,
)
    requires
        ledger.occupied(address),
    ensures
        ({
            let after = register_startup_ledger(
                ledger,
                program,
                founder,
                startup_id,
                name,
                sector,
            );
            after.occupied(address) && after.accounts[address] == ledger.accounts[address]
                && after.now == ledger.now
        }),
{
}

/// Adding an employee deletes nothing, and changes no account but that of
/// the startup.
pub proof fn lemma_addition_keeps_other_accounts(
    ledger: LedgerView,
    program: Seq<u8>,
    registry: Seq<u8>,
    startup_id: Seq<char>,
    certificate_id: Seq<char>,
    address: AddressView,
)
    requires
        ledger.occupied(address),
    ensures
        ({
            let after = add_employee_ledger(ledger, program, registry, startup_id, certificate_id);
            &&& after.occupied(address)
            &&& after.now == ledger.now
            &&& address != startup_address(program, startup_id) ==> after.accounts[address]
                == ledger.accounts[address]
        }),
{
}

} // verus!
