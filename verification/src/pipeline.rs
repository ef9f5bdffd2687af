//! The run over a chain: every certificate is decoded and described in the order of
//! the chain, the first is validated for the domain name, and the first error ends
//! the run.
//!
//! A run gives the lines that are said along the way and the error that ended it,
//! if one did. Nothing is said of a certificate that stands after that error.

use crate::decode::{certificate_bytes, decode_certificate, DecodeError, DecodeFailure};
use crate::introspect::{describe_certificate, diagnostic_lines, parsed_report};
use crate::normalize::{normalize_export, normalized_export, NormalizeError};
use crate::validate::{
    validate_end_entity, validation_failure, ValidationError, ValidationFailure,
    ValidationTarget,
};
use vstd::prelude::*;
use vstd::string::*;

verus! {

/// The error that ends a run, in contracts.
pub enum PipelineFailure {
    /// The export could not be normalized.
    Normalize(NormalizeError),
    /// A certificate could not be decoded.
    Decode(DecodeFailure),
    /// The end-entity certificate did not pass validation.
    Validation(ValidationFailure),
}

/// The error that ends a run.
#[derive(Debug, PartialEq, Eq)]
pub enum PipelineError {
    /// The export could not be normalized.
    Normalize(NormalizeError),
    /// A certificate could not be decoded.
    Decode(DecodeError),
    /// The end-entity certificate did not pass validation.
    Validation(ValidationError),
}

impl View for PipelineError {
    type V = PipelineFailure;

    open spec fn view(&self) -> PipelineFailure {
        match self {
            PipelineError::Normalize(error) => PipelineFailure::Normalize(*error),
            PipelineError::Decode(error) => PipelineFailure::Decode(error@),
            PipelineError::Validation(error) => PipelineFailure::Validation(error@),
        }
    }
}

impl PipelineFailure {
    /// What `PipelineError::message` says.
    pub open spec fn message_text(self) -> Seq<char> {
        match self {
            PipelineFailure::Normalize(error) => error.message_text(),
            PipelineFailure::Decode(error) => error.message_text(),
            PipelineFailure::Validation(failure) => failure.message_text(),
        }
    }
}

impl PipelineError {
    /// The error in words: its kind and, for a certificate, its position.
    pub fn message(&self) -> (message: String)
        ensures
            message@ == self@.message_text(),
    {
        match self {
            PipelineError::Normalize(error) => error.message(),
            PipelineError::Decode(error) => error.message(),
            PipelineError::Validation(error) => error.message(),
        }
    }
}

/// What is said before a certificate is decoded.
pub open spec fn loading_line() -> Seq<char> {
    "Loading cert..."@
}

/// What is said of a certificate that passed.
pub open spec fn passed_line() -> Seq<char> {
    "cert was all good"@
}

/// A run, in contracts: the lines that are said, and the error that ended the run.
pub struct RunText {
    pub transcript: Seq<Seq<char>>,
    pub failure: Option<PipelineFailure>,
}

/// A run: the lines that are said, in order, and the error that ended the run. A
/// run without an error went over the whole chain.
#[derive(Debug, PartialEq, Eq)]
pub struct ChainRun {
    pub transcript: Vec<String>,
    pub failure: Option<PipelineError>,
}

impl View for ChainRun {
    type V = RunText;

    open spec fn view(&self) -> RunText {
        RunText {
            transcript: self.transcript.deep_view(),
            failure: match self.failure {
                Some(error) => Some(error@),
                None => None,
            },
        }
    }
}

/// What validation finds wrong with the certificate at a position: only the
/// certificate at position 0, the end-entity certificate, is validated.
pub open spec fn position_failure(position: int, der: Seq<u8>, name: Seq<char>) -> Option<
    ValidationFailure,
> {
    if position == 0 {
        validation_failure(der, name)
    } else {
        None
    }
}

/// The run over the one certificate at `position`. A certificate that cannot be
/// decoded ends the run before anything is said of it. A decoded certificate is
/// described; it passes unless it is the end-entity certificate and fails validation.
pub open spec fn certificate_run(position: int, encoded: Seq<char>, name: Seq<char>) -> RunText {
    match certificate_bytes(encoded) {
        Err(reason) => RunText {
            transcript: seq![loading_line()],
            failure: Some(
                PipelineFailure::Decode(DecodeFailure { position: position as usize, reason }),
            ),
        },
        Ok(der) => {
            let described = seq![loading_line()] + diagnostic_lines(der);
            match position_failure(position, der, name) {
                Some(failure) => RunText {
                    transcript: described,
                    failure: Some(PipelineFailure::Validation(failure)),
                },
                None => RunText { transcript: described.push(passed_line()), failure: None },
            }
        },
    }
}

/// The run over the certificates from position `from` on: the runs over each of
/// them in turn, up to and including the first that ends with an error.
pub open spec fn chain_run_from(certificates: Seq<Seq<char>>, from: int, name: Seq<char>) -> RunText
    decreases certificates.len() - from,
{
    if from < 0 || from >= certificates.len() {
        RunText { transcript: Seq::empty(), failure: None }
    } else {
        let first = certificate_run(from, certificates[from], name);
        if first.failure is Some {
            first
        } else {
            let rest = chain_run_from(certificates, from + 1, name);
            RunText { transcript: first.transcript + rest.transcript, failure: rest.failure }
        }
    }
}

/// The run over a chain.
pub open spec fn chain_run(certificates: Seq<Seq<char>>, name: Seq<char>) -> RunText {
    chain_run_from(certificates, 0, name)
}

/// The run over an export: an export that cannot be normalized ends it before any
/// certificate is looked at.
pub open spec fn export_run(export: Seq<char>, name: Seq<char>) -> RunText {
    match normalized_export(export) {
        Err(error) => RunText {
            transcript: Seq::empty(),
            failure: Some(PipelineFailure::Normalize(error)),
        },
        Ok(certificates) => chain_run(certificates, name),
    }
}

/// A run over a chain up to a certificate that fails is the run over the whole
/// chain, whatever follows that certificate.
proof fn lemma_failure_ends_run_from(
    certificates: Seq<Seq<char>>,
    name: Seq<char>,
    from: int,
    at: int,
)
    requires
        0 <= from <= at < certificates.len(),
        forall|i: int|
            from <= i < at ==> certificate_run(i, #[trigger] certificates[i], name).failure is None,
        certificate_run(at, certificates[at], name).failure is Some,
    ensures
        chain_run_from(certificates, from, name) == chain_run_from(
            certificates.take(at + 1),
            from,
            name,
        ),
        chain_run_from(certificates, from, name).failure == certificate_run(
            at,
            certificates[at],
            name,
        ).failure,
    decreases at - from,
{
    let kept = certificates.take(at + 1);
    assert(kept[from] == certificates[from]);
    if from < at {
        lemma_failure_ends_run_from(certificates, name, from + 1, at);
    }
}

/// The first error ends the run: where the certificate at position `at` is the first
/// that fails, the run ends with its error, and nothing of it depends on the
/// certificates that stand after `at`. For a certificate that cannot be decoded the
/// error holds the position `at` and what is wrong with its base64 text.
pub proof fn lemma_first_failure_ends_run(certificates: Seq<Seq<char>>, name: Seq<char>, at: int)
    requires
        0 <= at < certificates.len(),
        forall|i: int|
            0 <= i < at ==> certificate_run(i, #[trigger] certificates[i], name).failure is None,
        certificate_run(at, certificates[at], name).failure is Some,
    ensures
        chain_run(certificates, name) == chain_run(certificates.take(at + 1), name),
        chain_run(certificates, name).failure == certificate_run(
            at,
            certificates[at],
            name,
        ).failure,
        certificate_bytes(certificates[at]) matches Err(reason) ==> chain_run(
            certificates,
            name,
        ).failure == Some(
            PipelineFailure::Decode(DecodeFailure { position: at as usize, reason }),
        ),
{
    lemma_failure_ends_run_from(certificates, name, 0, at);
}

/// Bytes that are no certificate to the introspector do not end the run: nothing is
/// said of them, and the certificate passes or fails as validation alone decides.
pub proof fn lemma_unparsed_certificate_goes_on(
    position: int,
    encoded: Seq<char>,
    name: Seq<char>,
)
    requires
        certificate_bytes(encoded) is Ok,
        parsed_report(certificate_bytes(encoded)->Ok_0) is None,
    ensures
        certificate_run(position, encoded, name).failure == match position_failure(
            position,
            certificate_bytes(encoded)->Ok_0,
            name,
        ) {
            Some(failure) => Some(PipelineFailure::Validation(failure)),
            None => None,
        },
        certificate_run(position, encoded, name).transcript == if certificate_run(
            position,
            encoded,
            name,
        ).failure is None {
            seq![loading_line(), passed_line()]
        } else {
            seq![loading_line()]
        },
{
    let run = certificate_run(position, encoded, name);
    let der = certificate_bytes(encoded)->Ok_0;
    assert(seq![loading_line()] + diagnostic_lines(der) =~= seq![loading_line()]);
    if position_failure(position, der, name) is None {
        assert(seq![loading_line()].push(passed_line()) =~= seq![loading_line(), passed_line()]);
    }
}

/// Where the run over the certificates from `from` on ends without an error, each
/// of them was decoded, and the other way round for the certificates after the first.
proof fn lemma_run_passes_from(certificates: Seq<Seq<char>>, name: Seq<char>, from: int)
    requires
        0 <= from <= certificates.len(),
    ensures
        chain_run_from(certificates, from, name).failure is None <==> forall|i: int|
            from <= i < certificates.len() ==> certificate_run(
                i,
                #[trigger] certificates[i],
                name,
            ).failure is None,
    decreases certificates.len() - from,
{
    if from < certificates.len() {
        lemma_run_passes_from(certificates, name, from + 1);
    }
}

/// A run over a chain ends without an error exactly where every certificate of the
/// chain can be decoded and the first passes validation for the name.
pub proof fn lemma_run_passes(certificates: Seq<Seq<char>>, name: Seq<char>)
    ensures
        chain_run(certificates, name).failure is None <==> {
            &&& forall|i: int|
                0 <= i < certificates.len() ==> certificate_bytes(
                    #[trigger] certificates[i],
                ) is Ok
            &&& certificates.len() > 0 ==> validation_failure(
                certificate_bytes(certificates[0])->Ok_0,
                name,
            ) is None
        },
{
    lemma_run_passes_from(certificates, name, 0);
    let decodes = forall|i: int|
        0 <= i < certificates.len() ==> certificate_bytes(#[trigger] certificates[i]) is Ok;
    let validates = certificates.len() > 0 ==> validation_failure(
        certificate_bytes(certificates[0])->Ok_0,
        name,
    ) is None;
    if chain_run(certificates, name).failure is None {
        assert forall|i: int| 0 <= i < certificates.len() implies certificate_bytes(
            #[trigger] certificates[i],
        ) is Ok by {
            assert(certificate_run(i, certificates[i], name).failure is None);
        }
        if certificates.len() > 0 {
            assert(certificate_run(0, certificates[0], name).failure is None);
        }
    }
    if decodes && validates {
        assert forall|i: int| 0 <= i < certificates.len() implies certificate_run(
            i,
            #[trigger] certificates[i],
            name,
        ).failure is None by {
            assert(certificate_bytes(certificates[i]) is Ok);
        }
    }
}

/// Adds lines to a transcript.
fn say(transcript: &mut Vec<String>, lines: Vec<String>)
    ensures
        final(transcript).deep_view() == old(transcript).deep_view() + lines.deep_view(),
{
    let ghost before = transcript.deep_view();
    let mut index: usize = 0;
    while index < lines.len()
        invariant
            index <= lines.len(),
            transcript.deep_view() == before + lines.deep_view().take(index as int),
        decreases lines.len() - index,
    {
        let ghost so_far = transcript.deep_view();
        transcript.push(lines[index].clone());
        assert(transcript.deep_view() =~= so_far.push(lines[index as int]@));
        assert(lines.deep_view().take(index + 1) =~= lines.deep_view().take(index as int).push(
            lines[index as int]@,
        ));
        index += 1;
    }
    assert(lines.deep_view().take(lines.len() as int) =~= lines.deep_view());
}

/// Checks the certificate at `position` of the chain: decodes it, describes it
/// and, at position 0, validates it for the target's domain name.
pub fn check_certificate(position: usize, encoded: &str, target: &ValidationTarget) -> (run:
    ChainRun)
    ensures
        run@ == certificate_run(position as int, encoded@, target@),
{
    let mut transcript: Vec<String> = Vec::new();
    transcript.push("Loading cert...".to_owned());
    assert(transcript.deep_view() =~= seq![loading_line()]);
    let der = match decode_certificate(encoded, position) {
        Ok(der) => der,
        Err(error) => {
            return ChainRun { transcript, failure: Some(PipelineError::Decode(error)) };
        },
    };
    say(&mut transcript, describe_certificate(der.as_slice()));
    if position == 0 {
        match validate_end_entity(der.as_slice(), target) {
            Ok(()) => {},
            Err(error) => {
                return ChainRun { transcript, failure: Some(PipelineError::Validation(error)) };
            },
        }
    }
    let ghost described = transcript.deep_view();
    transcript.push("cert was all good".to_owned());
    assert(transcript.deep_view() =~= described.push(passed_line()));
    ChainRun { transcript, failure: None }
}

/// Checks a chain of encoded certificates for the target's domain name, in order,
/// and stops at the first error.
pub fn check_chain(certificates: &Vec<String>, target: &ValidationTarget) -> (run: ChainRun)
    ensures
        run@ == chain_run(certificates.deep_view(), target@),
{
    let ghost chain = certificates.deep_view();
    let mut transcript: Vec<String> = Vec::new();
    let mut position: usize = 0;
    assert(transcript.deep_view() =~= Seq::<Seq<char>>::empty());
    while position < certificates.len()
        invariant
            position <= certificates.len(),
            chain == certificates.deep_view(),
            chain_run(chain, target@).transcript == transcript.deep_view() + chain_run_from(
                chain,
                position as int,
                target@,
            ).transcript,
            chain_run(chain, target@).failure == chain_run_from(
                chain,
                position as int,
                target@,
            ).failure,
        decreases certificates.len() - position,
    {
        let ghost before = transcript.deep_view();
        let step = check_certificate(position, certificates[position].as_str(), target);
        let ghost rest = chain_run_from(chain, position + 1, target@);
        say(&mut transcript, step.transcript);
        if step.failure.is_some() {
            return ChainRun { transcript, failure: step.failure };
        }
        assert(before + (step@.transcript + rest.transcript) =~= (before + step@.transcript)
            + rest.transcript);
        position += 1;
    }
    assert(transcript.deep_view() + Seq::<Seq<char>>::empty() =~= transcript.deep_view());
    ChainRun { transcript, failure: None }
}

/// Checks an export for the target's domain name: normalizes it and checks the
/// chain that it holds.
pub fn check_export(export: &str, target: &ValidationTarget) -> (run: ChainRun)
    ensures
        run@ == export_run(export@, target@),
{
    match normalize_export(export) {
        Ok(certificates) => check_chain(&certificates, target),
        Err(error) => {
            let transcript: Vec<String> = Vec::new();
            assert(transcript.deep_view() =~= Seq::<Seq<char>>::empty());
            ChainRun { transcript, failure: Some(PipelineError::Normalize(error)) }
        },
    }
}

} // verus!
