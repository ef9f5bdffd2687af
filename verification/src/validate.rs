//! The domain validator: is the end-entity certificate of a chain a well-formed
//! end-entity certificate, and is it valid for a given domain name?
//!
//! Both questions are put to `webpki`. This module keeps its two answers apart, so
//! that a malformed certificate and a certificate for another name never look alike.

use vstd::prelude::*;
use vstd::string::*;

verus! {

/// Whether `webpki::DnsNameRef::try_from_ascii_str` accepts a text as a DNS name.
pub uninterp spec fn dns_name_accepted(name: Seq<char>) -> bool;

/// What `webpki::EndEntityCert::try_from` finds wrong with the bytes of a
/// certificate: the name of its error, or `None` where it accepts them.
pub uninterp spec fn end_entity_fault(der: Seq<u8>) -> Option<Seq<char>>;

/// What `webpki::EndEntityCert::verify_is_valid_for_dns_name` finds wrong with an
/// end-entity certificate, given by its bytes, for a DNS name: the name of its error,
/// or `None` where the certificate is valid for the name.
pub uninterp spec fn dns_name_fault(der: Seq<u8>, name: Seq<char>) -> Option<Seq<char>>;

/// Why a certificate does not stand for a domain name, in contracts.
pub enum ValidationFailure {
    /// The bytes are no well-formed end-entity certificate.
    MalformedCertificate { reason: Seq<char> },
    /// The certificate is well-formed, and not valid for the name.
    NameMismatch { reason: Seq<char> },
}

/// Why a certificate does not stand for a domain name.
#[derive(Debug, PartialEq, Eq)]
pub enum ValidationError {
    /// The bytes are no well-formed end-entity certificate.
    MalformedCertificate { reason: String },
    /// The certificate is well-formed, and not valid for the name.
    NameMismatch { reason: String },
}

impl View for ValidationError {
    type V = ValidationFailure;

    open spec fn view(&self) -> ValidationFailure {
        match self {
            ValidationError::MalformedCertificate { reason } => {
                ValidationFailure::MalformedCertificate { reason: reason@ }
            },
            ValidationError::NameMismatch { reason } => {
                ValidationFailure::NameMismatch { reason: reason@ }
            },
        }
    }
}

impl ValidationFailure {
    /// What `ValidationError::message` says.
    pub open spec fn message_text(self) -> Seq<char> {
        match self {
            ValidationFailure::MalformedCertificate { reason } => "failed to parse certificate: "@
                + reason,
            ValidationFailure::NameMismatch { reason } => "certificate had the wrong domain name: "@
                + reason,
        }
    }
}

impl ValidationError {
    /// The error in words: its kind and what `webpki` called it.
    pub fn message(&self) -> (message: String)
        ensures
            message@ == self@.message_text(),
    {
        match self {
            ValidationError::MalformedCertificate { reason } => {
                let mut message = "failed to parse certificate: ".to_owned();
                message.append(reason.as_str());
                message
            },
            ValidationError::NameMismatch { reason } => {
                let mut message = "certificate had the wrong domain name: ".to_owned();
                message.append(reason.as_str());
                message
            },
        }
    }
}

/// What validation finds wrong with a certificate for a name, if anything: the
/// certificate is first read as an end-entity certificate, and only one that is
/// well-formed is held against the name.
pub open spec fn validation_failure(der: Seq<u8>, name: Seq<char>) -> Option<ValidationFailure> {
    match end_entity_fault(der) {
        Some(reason) => Some(ValidationFailure::MalformedCertificate { reason }),
        None => match dns_name_fault(der, name) {
            Some(reason) => Some(ValidationFailure::NameMismatch { reason }),
            None => None,
        },
    }
}

/// The view of a text that may be missing.
pub open spec fn text_of(text: Option<String>) -> Option<Seq<char>> {
    match text {
        Some(text) => Some(text@),
        None => None,
    }
}

/// A text is no DNS name.
#[derive(Debug, Clone, Copy, PartialEq, Eq, Structural)]
pub struct InvalidDomainName {}

impl InvalidDomainName {
    /// What `message` says.
    pub open spec fn message_text(self) -> Seq<char> {
        "the domain name is not a valid DNS name"@
    }

    /// The error in words.
    pub fn message(&self) -> (message: String)
        ensures
            message@ == self.message_text(),
    {
        "the domain name is not a valid DNS name".to_owned()
    }
}

/// The domain name that a chain is checked for. It holds a name that
/// `webpki` accepts as a DNS name, and no other.
#[derive(Debug)]
pub struct ValidationTarget {
    name: String,
}

impl View for ValidationTarget {
    type V = Seq<char>;

    closed spec fn view(&self) -> Seq<char> {
        self.name@
    }
}

impl ValidationTarget {
    #[verifier::type_invariant]
    spec fn accepted(&self) -> bool {
        dns_name_accepted(self.name@)
    }

    /// Makes a target of a domain name, which has to be a DNS name.
    pub fn new(name: &str) -> (target: Result<ValidationTarget, InvalidDomainName>)
        ensures
            dns_name_accepted(name@) <==> target is Ok,
            target is Ok ==> target->Ok_0@ == name@,
    {
        if dns_name_is_accepted(name) {
            Ok(ValidationTarget { name: name.to_owned() })
        } else {
            Err(InvalidDomainName {})
        }
    }

    /// The domain name, which is a DNS name.
    pub fn name(&self) -> (name: &str)
        ensures
            name@ == self@,
            dns_name_accepted(name@),
    {
        proof {
            use_type_invariant(self);
        }
        self.name.as_str()
    }
}

/// Calls `webpki::DnsNameRef::try_from_ascii_str`, which tests by the characters
/// of the text alone whether it is a well-formed DNS name. The contract names the
/// answer.
#[verifier::external_body]
fn dns_name_is_accepted(domain: &str) -> (accepted: bool)
    ensures
        accepted == dns_name_accepted(domain@),
{
    webpki::DnsNameRef::try_from_ascii_str(domain).is_ok()
}

/// Calls `webpki::EndEntityCert::try_from`, which parses the bytes as an X.509
/// certificate of an end entity. Of an error the wrapper keeps the name, as `Debug`
/// prints it. The contract names the result: the same bytes are always read alike.
#[verifier::external_body]
fn parse_end_entity(der: &[u8]) -> (fault: Option<String>)
    ensures
        text_of(fault) == end_entity_fault(der@),
{
    match webpki::EndEntityCert::try_from(der) {
        Ok(_) => None,
        Err(error) => Some(format!("{:?}", error)),
    }
}

/// Calls `webpki::EndEntityCert::verify_is_valid_for_dns_name` on the certificate
/// that the bytes hold, for a DNS name. The method compares the name with the names
/// in the certificate and looks at nothing else, neither a clock nor a trust
/// store. Of an error the wrapper keeps the name, as `Debug` prints it. The
/// contract asks for bytes and a name that `webpki` accepts, which is how the
/// method's two arguments are made, and names the result.
#[verifier::external_body]
fn verify_dns_name(der: &[u8], domain: &str) -> (fault: Option<String>)
    requires
        end_entity_fault(der@) is None,
        dns_name_accepted(domain@),
    ensures
        text_of(fault) == dns_name_fault(der@, domain@),
{
    let certificate = webpki::EndEntityCert::try_from(der).unwrap();
    let reference = webpki::DnsNameRef::try_from_ascii_str(domain).unwrap();
    match certificate.verify_is_valid_for_dns_name(reference) {
        Ok(()) => None,
        Err(error) => Some(format!("{:?}", error)),
    }
}

/// The verdict on a certificate, from what reading it as an end-entity certificate
/// found wrong and, for a certificate that was well-formed, what holding it against
/// the name found wrong. A fault of the first kind decides, whatever the second says.
pub fn verdict(parse_fault: Option<String>, name_fault: Option<String>) -> (outcome: Result<
    (),
    ValidationError,
>)
    ensures
        match parse_fault {
            Some(reason) => outcome is Err && outcome->Err_0@
                == (ValidationFailure::MalformedCertificate { reason: reason@ }),
            None => match name_fault {
                Some(reason) => outcome is Err && outcome->Err_0@
                    == (ValidationFailure::NameMismatch { reason: reason@ }),
                None => outcome is Ok,
            },
        },
{
    match parse_fault {
        Some(reason) => Err(ValidationError::MalformedCertificate { reason }),
        None => match name_fault {
            Some(reason) => Err(ValidationError::NameMismatch { reason }),
            None => Ok(()),
        },
    }
}

/// Validates the end-entity certificate of a chain, given by its bytes, for the
/// target's domain name. The chain behind the certificate, its period of validity
/// and its revocation are not looked at.
pub fn validate_end_entity(der: &[u8], target: &ValidationTarget) -> (outcome: Result<
    (),
    ValidationError,
>)
    ensures
        match validation_failure(der@, target@) {
            Some(failure) => outcome is Err && outcome->Err_0@ == failure,
            None => outcome is Ok,
        },
{
    let parse_fault = parse_end_entity(der);
    let name_fault = if parse_fault.is_none() {
        verify_dns_name(der, target.name())
    } else {
        None
    };
    verdict(parse_fault, name_fault)
}

} // verus!
