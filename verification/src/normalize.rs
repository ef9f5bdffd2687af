//! The export normalizer: from the text that a browser exports to the encoded
//! certificates of the chain, in order.
//!
//! An export is either a single certificate, or the address of a certificate viewer
//! that carries the whole chain: the marker `about:certificate?cert=`, then the
//! certificates, percent-encoded and separated by `&cert=`.

use crate::text::{
    chars_of, decimal, decimal_text, find_from, first_occurrence, holds_char,
    lemma_first_occurrence_is, lemma_first_occurrence_none, lemma_occurs_in_prefix,
    lemma_occurs_in_suffix, matches_at, occurrences, occurs_at, occurs_in,
};
use vstd::prelude::*;
use vstd::string::*;

verus! {

/// What the address of a certificate viewer begins with.
pub open spec fn marker() -> Seq<char> {
    "about:certificate?cert="@
}

/// What stands between two certificates of an exported chain.
pub open spec fn delimiter() -> Seq<char> {
    "&cert="@
}

/// `text` without `pattern` at its start, where it begins with `pattern`. The pattern
/// is taken off once: what follows it stays, also where that is the pattern again.
pub open spec fn strip_leading(text: Seq<char>, pattern: Seq<char>) -> Seq<char> {
    if pattern.len() > 0 && occurs_at(text, pattern, 0) {
        text.skip(pattern.len() as int)
    } else {
        text
    }
}

/// The pieces of `text` between the occurrences of `separator`, found from the left.
/// A text without the separator is its own single piece.
pub open spec fn split_on(text: Seq<char>, separator: Seq<char>) -> Seq<Seq<char>>
    decreases text.len(),
    via split_on_decreases
{
    match first_occurrence(text, separator) {
        Some(at) => if separator.len() > 0 {
            seq![text.take(at)] + split_on(text.skip(at + separator.len()), separator)
        } else {
            seq![text]
        },
        None => seq![text],
    }
}

#[via_fn]
proof fn split_on_decreases(text: Seq<char>, separator: Seq<char>) {
    lemma_first_occurrence_none(text, separator);
}

/// The pieces put together again, with `separator` between each two.
pub open spec fn joined(parts: Seq<Seq<char>>, separator: Seq<char>) -> Seq<char>
    decreases parts.len(),
{
    if parts.len() == 0 {
        Seq::empty()
    } else if parts.len() == 1 {
        parts[0]
    } else {
        parts[0] + separator + joined(parts.drop_first(), separator)
    }
}

/// The segments of an export: the export without the marker at its start, split at
/// the delimiter.
pub open spec fn export_segments(export: Seq<char>) -> Seq<Seq<char>> {
    split_on(strip_leading(export, marker()), delimiter())
}

/// What `urlencoding::decode` makes of a segment: the decoded text, or `None` where
/// the decoded bytes are no text.
pub uninterp spec fn percent_decoded(segment: Seq<char>) -> Option<Seq<char>>;

/// The encoded certificate that a segment stands for. A segment with a percent sign
/// is percent-decoded, any other is taken as it is.
pub open spec fn normalized_segment(segment: Seq<char>) -> Option<Seq<char>> {
    if segment.contains('%') {
        percent_decoded(segment)
    } else {
        Some(segment)
    }
}

/// The index of the first segment, from `from` on, that cannot be percent-decoded.
pub open spec fn first_malformed(segments: Seq<Seq<char>>, from: int) -> Option<int>
    decreases segments.len() - from,
{
    if from < 0 || from >= segments.len() {
        None
    } else if normalized_segment(segments[from]) is None {
        Some(from)
    } else {
        first_malformed(segments, from + 1)
    }
}

/// The encoded certificates of an export, or the first segment that is malformed.
pub open spec fn normalized_export(export: Seq<char>) -> Result<Seq<Seq<char>>, NormalizeError> {
    let segments = export_segments(export);
    match first_malformed(segments, 0) {
        Some(at) => Err(NormalizeError { segment: at as usize }),
        None => Ok(segments.map_values(|segment: Seq<char>| normalized_segment(segment)->0)),
    }
}

/// The text of each range of `bounds` in `text`.
pub open spec fn pieces(text: Seq<char>, bounds: Seq<(usize, usize)>) -> Seq<Seq<char>> {
    Seq::new(bounds.len(), |i: int| text.subrange(bounds[i].0 as int, bounds[i].1 as int))
}

/// A segment of the export could not be percent-decoded.
#[derive(Debug, Clone, Copy, PartialEq, Eq, Structural)]
pub struct NormalizeError {
    /// The index of the segment, counted from 0.
    pub segment: usize,
}

impl NormalizeError {
    /// What `message` says.
    pub open spec fn message_text(self) -> Seq<char> {
        "Failed to decode URL string: segment "@ + decimal_text(self.segment as nat)
    }

    /// The error in words: its kind and the index of the segment.
    pub fn message(&self) -> (message: String)
        ensures
            message@ == self.message_text(),
    {
        let mut message = "Failed to decode URL string: segment ".to_owned();
        message.append(decimal(self.segment).as_str());
        message
    }
}

/// The marker and the delimiter, character by character: only the delimiter holds
/// an ampersand, and only as its first character.
proof fn lemma_marker_and_delimiter()
    ensures
        marker().len() == 23,
        delimiter().len() == 6,
        delimiter()[0] == '&',
        forall|k: int| 0 < k < 6 ==> delimiter()[k] != '&',
        forall|k: int| 0 <= k < 23 ==> marker()[k] != '&',
{
    reveal_strlit("about:certificate?cert=");
    reveal_strlit("&cert=");
}

/// What `strip_leading` leaves is the text from some index on: from the length of
/// the pattern where the text begins with it, from 0 where it does not.
pub proof fn lemma_strip_is_suffix(text: Seq<char>, pattern: Seq<char>) -> (from: int)
    ensures
        0 <= from <= text.len(),
        from == 0 || from == pattern.len(),
        strip_leading(text, pattern) == text.skip(from),
{
    if pattern.len() > 0 && occurs_at(text, pattern, 0) {
        pattern.len() as int
    } else {
        assert(text.skip(0) =~= text);
        0
    }
}

/// Where `pattern` occurs at none of the first `count` indices, it occurs as often
/// in the text as in what follows them.
pub proof fn lemma_occurrences_skip(text: Seq<char>, pattern: Seq<char>, count: int)
    requires
        0 <= count <= text.len(),
        forall|i: int| 0 <= i < count ==> !occurs_at(text, pattern, i),
    ensures
        occurrences(text, pattern) == occurrences(text.skip(count), pattern),
    decreases count,
{
    if count == 0 {
        assert(text.skip(0) =~= text);
    } else {
        let rest = text.skip(1);
        assert forall|i: int| 0 <= i < count - 1 implies !occurs_at(rest, pattern, i) by {
            lemma_occurs_in_suffix(text, pattern, 1, i);
        }
        lemma_occurrences_skip(rest, pattern, count - 1);
        assert(rest.skip(count - 1) =~= text.skip(count));
    }
}

/// A pattern that occurs nowhere is counted zero times.
pub proof fn lemma_occurrences_none(text: Seq<char>, pattern: Seq<char>)
    requires
        !occurs_in(text, pattern),
    ensures
        occurrences(text, pattern) == 0,
{
    lemma_occurrences_skip(text, pattern, text.len() as int);
}

/// Joining the pieces of a split gives the text back.
pub proof fn lemma_split_joins(text: Seq<char>, separator: Seq<char>)
    ensures
        split_on(text, separator).len() >= 1,
        joined(split_on(text, separator), separator) == text,
    decreases text.len(),
{
    lemma_first_occurrence_none(text, separator);
    match first_occurrence(text, separator) {
        Some(at) => {
            if separator.len() > 0 {
                let rest = text.skip(at + separator.len());
                let parts = split_on(text, separator);
                lemma_split_joins(rest, separator);
                assert(parts.drop_first() =~= split_on(rest, separator));
                assert(text.take(at) + separator + rest =~= text) by {
                    assert(text.subrange(at, at + separator.len()) == separator);
                }
            }
        },
        None => {},
    }
}

/// No piece of a split holds the separator.
pub proof fn lemma_split_pieces_clean(text: Seq<char>, separator: Seq<char>, index: int)
    requires
        separator.len() > 0,
        0 <= index < split_on(text, separator).len(),
    ensures
        !occurs_in(split_on(text, separator)[index], separator),
    decreases text.len(),
{
    lemma_first_occurrence_none(text, separator);
    match first_occurrence(text, separator) {
        Some(at) => {
            let rest = text.skip(at + separator.len());
            if index == 0 {
                let head = text.take(at);
                assert forall|i: int| !occurs_at(head, separator, i) by {
                    if 0 <= i && i + separator.len() <= at {
                        lemma_occurs_in_prefix(text, separator, at, i);
                    }
                }
            } else {
                lemma_split_pieces_clean(rest, separator, index - 1);
            }
        },
        None => {},
    }
}

/// With a separator whose first character it holds only once, a split has one piece
/// more than the text has occurrences of the separator.
pub proof fn lemma_split_count(text: Seq<char>, separator: Seq<char>)
    requires
        separator.len() > 0,
        forall|k: int| 0 < k < separator.len() ==> #[trigger] separator[k] != separator[0],
    ensures
        split_on(text, separator).len() == occurrences(text, separator) + 1,
    decreases text.len(),
{
    lemma_first_occurrence_none(text, separator);
    match first_occurrence(text, separator) {
        Some(at) => {
            let size = separator.len() as int;
            let rest = text.skip(at + size);
            lemma_split_count(rest, separator);
            lemma_occurrences_skip(text, separator, at);
            let onward = text.skip(at);
            lemma_occurs_in_suffix(text, separator, at, 0);
            let after = onward.skip(1);
            assert forall|i: int| 0 <= i < size - 1 implies !occurs_at(after, separator, i) by {
                if occurs_at(after, separator, i) {
                    lemma_occurs_in_suffix(text, separator, at + 1, i);
                    assert(after =~= text.skip(at + 1));
                    let there = text.subrange(at + 1 + i, at + 1 + i + size);
                    let here = text.subrange(at, at + size);
                    assert(there[0] == separator[0]);
                    assert(here[i + 1] == separator[i + 1]);
                }
            }
            lemma_occurrences_skip(after, separator, size - 1);
            assert(after.skip(size - 1) =~= rest);
        },
        None => {
            lemma_occurrences_none(text, separator);
        },
    }
}

/// A split is the only way to cut a text at the separator: pieces that hold no
/// separator and that give the text when they are joined are the pieces of the split.
/// This holds for a separator whose first character it holds only once.
pub proof fn lemma_split_unique(text: Seq<char>, separator: Seq<char>, parts: Seq<Seq<char>>)
    requires
        separator.len() > 0,
        forall|k: int| 0 < k < separator.len() ==> #[trigger] separator[k] != separator[0],
        parts.len() >= 1,
        forall|i: int| 0 <= i < parts.len() ==> !occurs_in(#[trigger] parts[i], separator),
        joined(parts, separator) == text,
    ensures
        parts == split_on(text, separator),
    decreases parts.len(),
{
    lemma_first_occurrence_none(text, separator);
    if parts.len() == 1 {
        assert(text == parts[0]);
        assert(parts =~= seq![text]);
    } else {
        let head = parts[0];
        let rest = parts.drop_first();
        let size = separator.len() as int;
        let at = head.len() as int;
        let onward = joined(rest, separator);
        assert(text == head + separator + onward);
        assert(text.subrange(at, at + size) =~= separator);
        assert forall|i: int| 0 <= i < at implies !occurs_at(text, separator, i) by {
            if occurs_at(text, separator, i) {
                if i + size <= at {
                    assert(head =~= text.take(at));
                    lemma_occurs_in_prefix(text, separator, at, i);
                    assert(occurs_at(head, separator, i));
                } else {
                    let found = text.subrange(i, i + size);
                    assert(found[at - i] == text[at]);
                    assert(text[at] == separator[0]);
                    assert(separator[at - i] == separator[0]);
                }
            }
        }
        lemma_first_occurrence_is(text, separator, at);
        assert(text.take(at) =~= head);
        assert(text.skip(at + size) =~= onward);
        assert forall|i: int| 0 <= i < rest.len() implies !occurs_in(
            #[trigger] rest[i],
            separator,
        ) by {
            assert(rest[i] == parts[i + 1]);
        }
        lemma_split_unique(onward, separator, rest);
        assert(parts =~= seq![head] + rest);
    }
}

/// Stripping `pattern` from the front removes no occurrence of a separator whose
/// first character `pattern` does not hold.
pub proof fn lemma_strip_keeps_occurrences(
    text: Seq<char>,
    pattern: Seq<char>,
    separator: Seq<char>,
)
    requires
        separator.len() > 0,
        forall|k: int| 0 <= k < pattern.len() ==> #[trigger] pattern[k] != separator[0],
    ensures
        occurrences(strip_leading(text, pattern), separator) == occurrences(text, separator),
{
    if pattern.len() > 0 && occurs_at(text, pattern, 0) {
        let size = pattern.len() as int;
        assert forall|i: int| 0 <= i < size implies !occurs_at(text, separator, i) by {
            if occurs_at(text, separator, i) {
                let there = text.subrange(i, i + separator.len());
                let here = text.subrange(0, size);
                assert(there[0] == separator[0]);
                assert(here[i] == pattern[i]);
            }
        }
        lemma_occurrences_skip(text, separator, size);
    }
}

/// An export without the delimiter is a single certificate: its one segment is the
/// export without the marker, and the normalizer returns that segment alone,
/// percent-decoded where it holds a percent sign.
pub proof fn lemma_single_certificate(export: Seq<char>)
    requires
        !occurs_in(export, delimiter()),
    ensures
        export_segments(export) == seq![strip_leading(export, marker())],
        normalized_export(export) == match normalized_segment(strip_leading(export, marker())) {
            Some(certificate) => Ok::<Seq<Seq<char>>, NormalizeError>(seq![certificate]),
            None => Err::<Seq<Seq<char>>, NormalizeError>(NormalizeError { segment: 0 }),
        },
        !export.contains('%') ==> normalized_export(export) == Ok::<
            Seq<Seq<char>>,
            NormalizeError,
        >(seq![strip_leading(export, marker())]),
{
    let rest = strip_leading(export, marker());
    let from = lemma_strip_is_suffix(export, marker());
    assert forall|i: int| !occurs_at(rest, delimiter(), i) by {
        if 0 <= i {
            lemma_occurs_in_suffix(export, delimiter(), from, i);
        }
    }
    lemma_first_occurrence_none(rest, delimiter());
    let segments = export_segments(export);
    assert(segments == seq![rest]);
    assert(first_malformed(segments, 1) is None);
    if normalized_segment(rest) is Some {
        assert(segments.map_values(|segment: Seq<char>| normalized_segment(segment)->0)
            =~= seq![normalized_segment(rest)->0]);
    }
    if !export.contains('%') {
        if rest.contains('%') {
            let i = choose|i: int| 0 <= i < rest.len() && rest[i] == '%';
            assert(export[from + i] == '%');
        }
    }
}

/// An export with `n` occurrences of the delimiter has `n + 1` segments, in the order
/// of the export: joined by the delimiter they give the export without the marker,
/// and none of them holds the delimiter.
pub proof fn lemma_segment_count(export: Seq<char>)
    ensures
        export_segments(export).len() == occurrences(export, delimiter()) + 1,
        joined(export_segments(export), delimiter()) == strip_leading(export, marker()),
        forall|i: int|
            0 <= i < export_segments(export).len() ==> !occurs_in(
                #[trigger] export_segments(export)[i],
                delimiter(),
            ),
{
    lemma_marker_and_delimiter();
    let rest = strip_leading(export, marker());
    lemma_strip_keeps_occurrences(export, marker(), delimiter());
    lemma_split_count(rest, delimiter());
    lemma_split_joins(rest, delimiter());
    assert forall|i: int| 0 <= i < export_segments(export).len() implies !occurs_in(
        #[trigger] export_segments(export)[i],
        delimiter(),
    ) by {
        lemma_split_pieces_clean(rest, delimiter(), i);
    }
}

/// The segments of an export are the only way to cut it at the delimiter: pieces
/// without the delimiter that give the export without the marker, when they are
/// joined by the delimiter, are its segments.
pub proof fn lemma_segments_unique(export: Seq<char>, parts: Seq<Seq<char>>)
    requires
        parts.len() >= 1,
        forall|i: int| 0 <= i < parts.len() ==> !occurs_in(#[trigger] parts[i], delimiter()),
        joined(parts, delimiter()) == strip_leading(export, marker()),
    ensures
        parts == export_segments(export),
{
    lemma_marker_and_delimiter();
    lemma_split_unique(strip_leading(export, marker()), delimiter(), parts);
}

/// A successful normalization keeps every segment, in order: it has one certificate
/// for each segment of the export. A certificate is the percent-decoded segment where
/// the segment holds a percent sign, and the segment itself where it holds none.
pub proof fn lemma_normalized_keeps_order(export: Seq<char>)
    requires
        normalized_export(export) is Ok,
    ensures
        normalized_export(export)->Ok_0.len() == export_segments(export).len(),
        normalized_export(export)->Ok_0.len() == occurrences(export, delimiter()) + 1,
        forall|i: int|
            0 <= i < export_segments(export).len() ==> if (#[trigger] export_segments(
                export,
            )[i]).contains('%') {
                percent_decoded(export_segments(export)[i]) == Some(
                    normalized_export(export)->Ok_0[i],
                )
            } else {
                normalized_export(export)->Ok_0[i] == export_segments(export)[i]
            },
{
    lemma_segment_count(export);
    let segments = export_segments(export);
    assert forall|i: int| 0 <= i < segments.len() implies normalized_segment(
        #[trigger] segments[i],
    ) is Some by {
        lemma_none_malformed(segments, 0, i);
    }
}

/// Where no segment from `from` on is malformed, each of them can be decoded.
pub proof fn lemma_none_malformed(segments: Seq<Seq<char>>, from: int, index: int)
    requires
        0 <= from <= index < segments.len(),
        first_malformed(segments, from) is None,
    ensures
        normalized_segment(segments[index]) is Some,
    decreases index - from,
{
    if from < index {
        lemma_none_malformed(segments, from + 1, index);
    }
}

/// Calls `urlencoding::decode` on a segment. The crate decodes the percent
/// escapes to bytes and then reads the bytes as UTF-8; it fails where they are not.
/// The contract only names the result: the same segment always decodes alike.
#[verifier::external_body]
fn percent_decode(segment: &str) -> (decoded: Option<String>)
    ensures
        match decoded {
            Some(text) => percent_decoded(segment@) == Some(text@),
            None => percent_decoded(segment@) is None,
        },
{
    match urlencoding::decode(segment) {
        Ok(text) => Some(text.into_owned()),
        Err(_) => None,
    }
}

/// The ranges of the segments of an export, given by its characters: the segment
/// `i` runs from index `bounds[i].0` up to, not including, `bounds[i].1`.
pub fn segment_bounds(export: &Vec<char>) -> (bounds: Vec<(usize, usize)>)
    ensures
        pieces(export@, bounds@) == export_segments(export@),
        forall|i: int|
            0 <= i < bounds.len() ==> (#[trigger] bounds[i]).0 <= bounds[i].1 <= export.len(),
{
    let prefix = chars_of("about:certificate?cert=");
    let separator = chars_of("&cert=");
    proof {
        lemma_marker_and_delimiter();
        assert(export@.skip(0) =~= export@);
    }
    let start: usize = if matches_at(export, &prefix, 0) {
        prefix.len()
    } else {
        0
    };
    let ghost rest = export@.skip(start as int);
    let mut bounds: Vec<(usize, usize)> = Vec::new();
    let mut from: usize = start;
    loop
        invariant
            separator@ == delimiter(),
            separator.len() == 6,
            start <= from <= export.len(),
            rest == export@.skip(start as int),
            rest == strip_leading(export@, marker()),
            split_on(rest, delimiter()) == pieces(export@, bounds@) + split_on(
                export@.skip(from as int),
                delimiter(),
            ),
            forall|i: int|
                0 <= i < bounds.len() ==> (#[trigger] bounds[i]).0 <= bounds[i].1 <= export.len(),
        decreases export.len() - from,
    {
        let ghost tail = export@.skip(from as int);
        let ghost before = pieces(export@, bounds@);
        match find_from(export, &separator, from) {
            Some(at) => {
                bounds.push((from, at));
                proof {
                    let offset = at - from;
                    assert(tail.take(offset) =~= export@.subrange(from as int, at as int));
                    assert(tail.skip(offset + 6) =~= export@.skip(at + 6));
                    assert(pieces(export@, bounds@) =~= before + seq![tail.take(offset)]);
                }
                from = at + separator.len();
            },
            None => {
                bounds.push((from, export.len()));
                proof {
                    assert(tail =~= export@.subrange(from as int, export.len() as int));
                    assert(pieces(export@, bounds@) =~= before + seq![tail]);
                }
                return bounds;
            },
        }
    }
}

/// Splits an export into its segments, each as it stands in the export.
pub fn split_export(export: &str) -> (segments: Vec<String>)
    ensures
        segments.deep_view() == export_segments(export@),
{
    let chars = chars_of(export);
    let bounds = segment_bounds(&chars);
    let mut segments: Vec<String> = Vec::new();
    let mut index: usize = 0;
    while index < bounds.len()
        invariant
            chars@ == export@,
            index <= bounds.len(),
            segments.len() == index,
            pieces(export@, bounds@) == export_segments(export@),
            forall|i: int|
                0 <= i < bounds.len() ==> (#[trigger] bounds[i]).0 <= bounds[i].1 <= chars.len(),
            forall|i: int| 0 <= i < index ==> (#[trigger] segments[i])@ == export_segments(export@)[i],
        decreases bounds.len() - index,
    {
        let (from, to) = bounds[index];
        assert(pieces(export@, bounds@)[index as int] == export@.subrange(from as int, to as int));
        segments.push(export.substring_char(from, to).to_owned());
        index += 1;
    }
    assert(segments.deep_view() =~= export_segments(export@));
    segments
}

/// Takes up what percent-decoding made of the next segment: a decoded segment is
/// added to the certificates, a failure names the segment by its index, which is the
/// number of certificates taken up before it.
pub fn keep_decoded(certificates: &mut Vec<String>, decoded: Option<String>) -> (kept: Result<
    (),
    NormalizeError,
>)
    ensures
        match decoded {
            Some(text) => kept is Ok && final(certificates)@ == old(certificates)@.push(text),
            None => kept == Err::<(), NormalizeError>(
                NormalizeError { segment: old(certificates).len() },
            ) && final(certificates)@ == old(certificates)@,
        },
{
    match decoded {
        Some(text) => {
            certificates.push(text);
            Ok(())
        },
        None => Err(NormalizeError { segment: certificates.len() }),
    }
}

/// Normalizes an export: strips the marker from its start, once, splits what follows
/// at the delimiter and percent-decodes each segment that holds a percent sign. The certificates come in
/// the order of the export; a segment that cannot be decoded fails the whole export.
///
/// An export with `n` occurrences of the delimiter gives `n + 1` certificates, so an
/// export without the delimiter gives one: the export without the marker, where that
/// holds no percent sign.
pub fn normalize_export(export: &str) -> (certificates: Result<Vec<String>, NormalizeError>)
    ensures
        match normalized_export(export@) {
            Ok(texts) => certificates is Ok && certificates->Ok_0.deep_view() == texts,
            Err(error) => certificates == Err::<Vec<String>, NormalizeError>(error),
        },
        certificates is Ok ==> certificates->Ok_0.len() == occurrences(export@, delimiter()) + 1,
        !occurs_in(export@, delimiter()) && !export@.contains('%') ==> certificates is Ok
            && certificates->Ok_0.deep_view() == seq![strip_leading(export@, marker())],
{
    proof {
        lemma_segment_count(export@);
        if !occurs_in(export@, delimiter()) {
            lemma_single_certificate(export@);
        }
    }
    let chars = chars_of(export);
    let bounds = segment_bounds(&chars);
    let ghost segments = export_segments(export@);
    let mut certificates: Vec<String> = Vec::new();
    let mut index: usize = 0;
    while index < bounds.len()
        invariant
            chars@ == export@,
            index <= bounds.len(),
            certificates.len() == index,
            segments == export_segments(export@),
            pieces(export@, bounds@) == segments,
            forall|i: int|
                0 <= i < bounds.len() ==> (#[trigger] bounds[i]).0 <= bounds[i].1 <= chars.len(),
            first_malformed(segments, 0) == first_malformed(segments, index as int),
            forall|i: int|
                0 <= i < index ==> normalized_segment(segments[i]) == Some(
                    (#[trigger] certificates[i])@,
                ),
        decreases bounds.len() - index,
    {
        let (from, to) = bounds[index];
        assert(pieces(export@, bounds@)[index as int] == export@.subrange(from as int, to as int));
        let segment = export.substring_char(from, to);
        let decoded = if holds_char(&chars, from, to, '%') {
            percent_decode(segment)
        } else {
            Some(segment.to_owned())
        };
        match keep_decoded(&mut certificates, decoded) {
            Ok(()) => {},
            Err(error) => {
                return Err(error);
            },
        }
        index += 1;
    }
    proof {
        let texts = segments.map_values(|segment: Seq<char>| normalized_segment(segment)->0);
        assert(certificates.deep_view() =~= texts);
    }
    Ok(certificates)
}

} // verus!
