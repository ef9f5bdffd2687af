//! The metadata introspector: what a certificate says of itself, for a reader who
//! wants to know which certificate is being checked.
//!
//! The fields are read by `x509-parser`. Bytes that it cannot parse give no report,
//! and never an error: the validator reads the bytes on its own and has the say.

use vstd::prelude::*;
use vstd::string::*;

verus! {

/// What reading the subject alternative names of a certificate gave.
#[derive(Debug, PartialEq, Eq)]
pub enum AlternativeNames {
    /// The certificate has the extension, once and well-formed: these are its names.
    Listed(String),
    /// The certificate has no such extension.
    Absent,
    /// The certificate has the extension more than once, or not well-formed.
    Unreadable,
}

/// What reading the subject alternative names gave, in contracts.
pub enum NamesText {
    Listed(Seq<char>),
    Absent,
    Unreadable,
}

impl View for AlternativeNames {
    type V = NamesText;

    open spec fn view(&self) -> NamesText {
        match self {
            AlternativeNames::Listed(names) => NamesText::Listed(names@),
            AlternativeNames::Absent => NamesText::Absent,
            AlternativeNames::Unreadable => NamesText::Unreadable,
        }
    }
}

/// The fields of a certificate that are reported.
#[derive(Debug, PartialEq, Eq)]
pub struct DiagnosticReport {
    /// The subject's distinguished name.
    pub subject: String,
    /// The subject alternative names, as far as they could be read.
    pub alternative_names: AlternativeNames,
    /// The issuer's distinguished name.
    pub issuer: String,
    /// The serial number, as bytes in hexadecimal separated by colons.
    pub serial: String,
    /// The version of the certificate.
    pub version: String,
    /// Whether the basic constraints say that the subject is a certificate authority.
    pub is_ca: bool,
}

/// A report, in contracts.
pub struct ReportText {
    pub subject: Seq<char>,
    pub alternative_names: NamesText,
    pub issuer: Seq<char>,
    pub serial: Seq<char>,
    pub version: Seq<char>,
    pub is_ca: bool,
}

impl View for DiagnosticReport {
    type V = ReportText;

    open spec fn view(&self) -> ReportText {
        ReportText {
            subject: self.subject@,
            alternative_names: self.alternative_names@,
            issuer: self.issuer@,
            serial: self.serial@,
            version: self.version@,
            is_ca: self.is_ca,
        }
    }
}

/// What `x509_parser::parse_x509_certificate` reads from the bytes of a
/// certificate, as a report, or `None` where it cannot parse them.
pub uninterp spec fn parsed_report(der: Seq<u8>) -> Option<ReportText>;

/// The view of a report that may be missing.
pub open spec fn report_of(report: Option<DiagnosticReport>) -> Option<ReportText> {
    match report {
        Some(report) => Some(report@),
        None => None,
    }
}

/// How a truth value is written.
pub open spec fn truth_text(value: bool) -> Seq<char> {
    if value {
        "true"@
    } else {
        "false"@
    }
}

/// The lines of a report: one for each field. Alternative names have a line only
/// where they were read: names that are absent and names that could not be read are
/// both passed over in silence.
pub open spec fn report_text(report: ReportText) -> Seq<Seq<char>> {
    let names = match report.alternative_names {
        NamesText::Listed(names) => seq!["\tX.509 Alternative Subject(s): "@ + names],
        NamesText::Absent => Seq::empty(),
        NamesText::Unreadable => Seq::empty(),
    };
    seq!["\tX.509 Subject: "@ + report.subject] + names + seq![
        "\tX.509 Issuer: "@ + report.issuer,
        "\tX.509 serial: "@ + report.serial,
        "\tX.509 version: "@ + report.version,
        "\tX.509 CA? "@ + truth_text(report.is_ca),
    ]
}

/// What is said of a report that may be missing: its lines, or nothing.
pub open spec fn output_text(report: Option<ReportText>) -> Seq<Seq<char>> {
    match report {
        Some(report) => report_text(report),
        None => Seq::empty(),
    }
}

/// What is said of a certificate, given by its bytes.
pub open spec fn diagnostic_lines(der: Seq<u8>) -> Seq<Seq<char>> {
    output_text(parsed_report(der))
}

/// Calls `x509_parser::parse_x509_certificate` and copies from the certificate that
/// it returns the fields of the report: subject and issuer as they are displayed,
/// the version as `Debug` prints it, the serial number from `raw_serial_as_string`
/// and the flag from `is_ca`. Of `subject_alternative_name` it hands on each of the
/// three outcomes, the names as `Debug` prints them. Bytes that do not parse give
/// `None`. The contract names the result: the same bytes are always read alike.
#[verifier::external_body]
fn parse_report(der: &[u8]) -> (report: Option<DiagnosticReport>)
    ensures
        report_of(report) == parsed_report(der@),
{
    let (_, certificate) = x509_parser::parse_x509_certificate(der).ok()?;
    Some(DiagnosticReport {
        subject: certificate.subject().to_string(),
        alternative_names: match certificate.tbs_certificate.subject_alternative_name() {
            Ok(Some(names)) => AlternativeNames::Listed(format!("{:?}", names.value.general_names)),
            Ok(None) => AlternativeNames::Absent,
            Err(_) => AlternativeNames::Unreadable,
        },
        issuer: certificate.issuer().to_string(),
        serial: certificate.tbs_certificate.raw_serial_as_string(),
        version: format!("{:?}", certificate.tbs_certificate.version()),
        is_ca: certificate.tbs_certificate.is_ca(),
    })
}

/// A line made of a label and a value.
fn labelled(label: &str, value: &str) -> (line: String)
    ensures
        line@ == label@ + value@,
{
    let mut line = label.to_owned();
    line.append(value);
    line
}

/// The lines of a report.
pub fn report_lines(report: &DiagnosticReport) -> (lines: Vec<String>)
    ensures
        lines.deep_view() == report_text(report@),
{
    let mut lines: Vec<String> = Vec::new();
    lines.push(labelled("\tX.509 Subject: ", report.subject.as_str()));
    match &report.alternative_names {
        AlternativeNames::Listed(names) => {
            lines.push(labelled("\tX.509 Alternative Subject(s): ", names.as_str()));
        },
        AlternativeNames::Absent => {},
        AlternativeNames::Unreadable => {},
    }
    lines.push(labelled("\tX.509 Issuer: ", report.issuer.as_str()));
    lines.push(labelled("\tX.509 serial: ", report.serial.as_str()));
    lines.push(labelled("\tX.509 version: ", report.version.as_str()));
    lines.push(labelled("\tX.509 CA? ", if report.is_ca { "true" } else { "false" }));
    assert(lines.deep_view() =~= report_text(report@));
    lines
}

/// What is said of a report that may be missing. A missing report is no error: it
/// gives no lines.
pub fn diagnostic_output(report: &Option<DiagnosticReport>) -> (lines: Vec<String>)
    ensures
        lines.deep_view() == output_text(report_of(*report)),
{
    match report {
        Some(report) => report_lines(report),
        None => {
            let lines: Vec<String> = Vec::new();
            assert(lines.deep_view() =~= Seq::<Seq<char>>::empty());
            lines
        },
    }
}

/// Reads the fields of a certificate, given by its bytes. Bytes that are no
/// certificate give no report.
pub fn inspect_certificate(der: &[u8]) -> (report: Option<DiagnosticReport>)
    ensures
        report_of(report) == parsed_report(der@),
{
    parse_report(der)
}

/// Describes a certificate, given by its bytes: the lines of its report, or no line
/// where the bytes are no certificate.
pub fn describe_certificate(der: &[u8]) -> (lines: Vec<String>)
    ensures
        lines.deep_view() == diagnostic_lines(der@),
{
    let report = inspect_certificate(der);
    diagnostic_output(&report)
}

} // verus!
