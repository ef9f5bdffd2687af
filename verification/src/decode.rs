//! The certificate decoder: from one encoded certificate, PEM text or bare
//! base64, to the bytes of the certificate.
//!
//! The lines of the armor, which begin with a dash, and the empty lines are dropped,
//! the other lines are put together, white space around the whole is trimmed, and
//! what is left is decoded as base64.

use crate::text::{
    chars_of, decimal, decimal_text, find_from, first_occurrence, lemma_first_occurrence_is,
    lemma_first_occurrence_none, occurs_at,
};
use vstd::prelude::*;
use vstd::seq_lib::lemma_flatten_concat;
use vstd::string::*;

verus! {

/// The line feed, as a pattern to search for.
pub open spec fn newline() -> Seq<char> {
    seq!['\n']
}

/// A line without the carriage return that it may end with.
pub open spec fn without_return(line: Seq<char>) -> Seq<char> {
    if line.len() > 0 && line.last() == '\r' {
        line.drop_last()
    } else {
        line
    }
}

/// The first line of a text that is not empty: what stands before the first line
/// feed, without a carriage return just before it, or the whole text where it holds
/// no line feed.
pub open spec fn first_line(text: Seq<char>) -> Seq<char> {
    match first_occurrence(text, newline()) {
        Some(at) => without_return(text.take(at)),
        None => text,
    }
}

/// What follows the first line of a text and its line feed.
pub open spec fn after_first_line(text: Seq<char>) -> Seq<char> {
    match first_occurrence(text, newline()) {
        Some(at) => text.skip(at + 1),
        None => Seq::empty(),
    }
}

/// The lines of a text. A line ends at a line feed, or at a carriage return and a
/// line feed; the last line needs no line feed.
pub open spec fn lines_of(text: Seq<char>) -> Seq<Seq<char>>
    decreases text.len(),
    via lines_of_decreases
{
    if text.len() == 0 {
        Seq::empty()
    } else {
        seq![first_line(text)] + lines_of(after_first_line(text))
    }
}

#[via_fn]
proof fn lines_of_decreases(text: Seq<char>) {
    lemma_first_occurrence_none(text, newline());
}

/// Whether a line belongs to the payload: it is not empty and begins with no dash.
pub open spec fn is_payload_line(line: Seq<char>) -> bool {
    line.len() > 0 && line[0] != '-'
}

/// The test `is_payload_line`, as a value.
pub open spec fn payload_lines() -> spec_fn(Seq<char>) -> bool {
    |line: Seq<char>| is_payload_line(line)
}

/// The payload lines of a text, put together with nothing between them.
pub open spec fn payload_of(text: Seq<char>) -> Seq<char> {
    lines_of(text).filter(payload_lines()).flatten()
}

/// Whether a character is white space, by the Unicode property `White_Space`.
pub open spec fn is_white_space(c: char) -> bool {
    let code = c as u32;
    ||| 0x09 <= code <= 0x0D
    ||| code == 0x20
    ||| code == 0x85
    ||| code == 0xA0
    ||| code == 0x1680
    ||| 0x2000 <= code <= 0x200A
    ||| code == 0x2028
    ||| code == 0x2029
    ||| code == 0x202F
    ||| code == 0x205F
    ||| code == 0x3000
}

/// A text without the white space that it begins with.
pub open spec fn trim_start(text: Seq<char>) -> Seq<char>
    decreases text.len(),
{
    if text.len() > 0 && is_white_space(text[0]) {
        trim_start(text.skip(1))
    } else {
        text
    }
}

/// A text without the white space that it ends with.
pub open spec fn trim_end(text: Seq<char>) -> Seq<char>
    decreases text.len(),
{
    if text.len() > 0 && is_white_space(text.last()) {
        trim_end(text.drop_last())
    } else {
        text
    }
}

/// A text without the white space around it.
pub open spec fn trimmed(text: Seq<char>) -> Seq<char> {
    trim_end(trim_start(text))
}

/// The base64 text of an encoded certificate: its payload, trimmed.
pub open spec fn armor_stripped(encoded: Seq<char>) -> Seq<char> {
    trimmed(payload_of(encoded))
}

/// An encoded certificate of the chain is no base64, in contracts.
pub struct DecodeFailure {
    pub position: usize,
    pub reason: Seq<char>,
}

/// An encoded certificate of the chain is no base64.
#[derive(Debug, PartialEq, Eq)]
pub struct DecodeError {
    /// The position of the certificate in the chain, counted from 0.
    pub position: usize,
    /// What `base64` found wrong with its text, in that crate's words.
    pub reason: String,
}

impl View for DecodeError {
    type V = DecodeFailure;

    open spec fn view(&self) -> DecodeFailure {
        DecodeFailure { position: self.position, reason: self.reason@ }
    }
}

impl DecodeFailure {
    /// What `DecodeError::message` says.
    pub open spec fn message_text(self) -> Seq<char> {
        "requested cert wasn't base64: certificate "@ + decimal_text(self.position as nat) + ": "@
            + self.reason
    }
}

impl DecodeError {
    /// The error in words: its kind, the position of the certificate and what
    /// `base64` found wrong.
    pub fn message(&self) -> (message: String)
        ensures
            message@ == self@.message_text(),
    {
        let mut message = "requested cert wasn't base64: certificate ".to_owned();
        message.append(decimal(self.position).as_str());
        message.append(": ");
        message.append(self.reason.as_str());
        message
    }
}

/// What `base64::decode_config` makes of a text with the configuration
/// `STANDARD_NO_PAD`: the decoded bytes, or its error as `Debug` prints it.
pub uninterp spec fn base64_decoded(text: Seq<char>) -> Result<Seq<u8>, Seq<char>>;

/// The bytes of an encoded certificate, or what is wrong with its base64 text.
pub open spec fn certificate_bytes(encoded: Seq<char>) -> Result<Seq<u8>, Seq<char>> {
    base64_decoded(armor_stripped(encoded))
}

/// Whether a character is a symbol of the standard base64 alphabet, or the padding.
pub open spec fn is_base64_char(c: char) -> bool {
    let code = c as u32;
    ||| 0x41 <= code <= 0x5A
    ||| 0x61 <= code <= 0x7A
    ||| 0x30 <= code <= 0x39
    ||| c == '+'
    ||| c == '/'
    ||| c == '='
}

/// Whether a text holds base64 characters only.
pub open spec fn is_base64_text(text: Seq<char>) -> bool {
    forall|i: int| 0 <= i < text.len() ==> is_base64_char(#[trigger] text[i])
}

/// Whether a line is one of the armor: it begins with a dash and holds no line feed.
pub open spec fn is_armor_line(line: Seq<char>) -> bool {
    &&& line.len() > 0
    &&& line[0] == '-'
    &&& !line.contains('\n')
}

/// Whether a text is one of the two line endings: a line feed, or a carriage return
/// and a line feed.
pub open spec fn is_line_ending(ending: Seq<char>) -> bool {
    ending == seq!['\n'] || ending == seq!['\r', '\n']
}

/// Whether `endings` can end that many lines of a text, one each: every one is a
/// line ending, but for the last, which may also be empty.
pub open spec fn are_line_endings(endings: Seq<Seq<char>>, lines: nat) -> bool {
    &&& endings.len() == lines
    &&& forall|i: int|
        0 <= i < endings.len() ==> is_line_ending(#[trigger] endings[i]) || (i == endings.len()
            - 1 && endings[i].len() == 0)
}

/// The text made of the given lines, each followed by its own line ending.
pub open spec fn ended_lines(lines: Seq<Seq<char>>, endings: Seq<Seq<char>>) -> Seq<char>
    decreases lines.len(),
{
    if lines.len() == 0 {
        Seq::empty()
    } else {
        lines[0] + endings[0] + ended_lines(lines.drop_first(), endings.drop_first())
    }
}

/// PEM text: a header line, the lines of the body and a footer line, each followed
/// by its own line ending.
pub open spec fn armored(
    header: Seq<char>,
    body: Seq<Seq<char>>,
    footer: Seq<char>,
    endings: Seq<Seq<char>>,
) -> Seq<char> {
    ended_lines(seq![header] + body + seq![footer], endings)
}

/// Whether a line, written out with a line ending, is read back as a line of the
/// same kind: it holds no line feed, and it begins with a dash or does not end with a
/// carriage return.
spec fn is_written_line(line: Seq<char>) -> bool {
    &&& !line.contains('\n')
    &&& (line.len() > 0 && line[0] == '-') || !(line.len() > 0 && line.last() == '\r')
}

/// A line put before others adds itself to what is kept of them, where it is a
/// payload line, and nothing where it is not.
proof fn lemma_kept_prepend(line: Seq<char>, rest: Seq<Seq<char>>)
    ensures
        (seq![line] + rest).filter(payload_lines()).flatten() == if is_payload_line(line) {
            line + rest.filter(payload_lines()).flatten()
        } else {
            rest.filter(payload_lines()).flatten()
        },
{
    let head = seq![line];
    let onward = rest.filter(payload_lines());
    Seq::filter_distributes_over_add(head, rest, payload_lines());
    reveal_with_fuel(Seq::filter, 2);
    assert(head.drop_last() =~= Seq::<Seq<char>>::empty());
    lemma_flatten_concat(head.filter(payload_lines()), onward);
    if is_payload_line(line) {
        assert(head.filter(payload_lines()) =~= head);
        head.lemma_flatten_one_element();
    } else {
        assert(head.filter(payload_lines()) =~= Seq::<Seq<char>>::empty());
        assert(Seq::<char>::empty() + onward.flatten() =~= onward.flatten());
    }
}

/// The payload of a text that is not empty is what its first line adds to it, then
/// the payload of the rest.
pub proof fn lemma_payload_step(text: Seq<char>)
    requires
        text.len() > 0,
    ensures
        payload_of(text) == if is_payload_line(first_line(text)) {
            first_line(text) + payload_of(after_first_line(text))
        } else {
            payload_of(after_first_line(text))
        },
{
    lemma_kept_prepend(first_line(text), lines_of(after_first_line(text)));
}

/// A text that begins with `count` characters of white space, and goes on with
/// another character or ends there, is trimmed at its start to what follows them.
pub proof fn lemma_trim_start(text: Seq<char>, count: int)
    requires
        0 <= count <= text.len(),
        forall|i: int| 0 <= i < count ==> is_white_space(#[trigger] text[i]),
        count < text.len() ==> !is_white_space(text[count]),
    ensures
        trim_start(text) == text.skip(count),
    decreases count,
{
    if count == 0 {
        assert(text.skip(0) =~= text);
    } else {
        lemma_trim_start(text.skip(1), count - 1);
        assert(text.skip(1).skip(count - 1) =~= text.skip(count));
    }
}

/// A text that ends with white space from index `upto` on, and has another
/// character before it or none, is trimmed at its end to what stands before `upto`.
pub proof fn lemma_trim_end(text: Seq<char>, upto: int)
    requires
        0 <= upto <= text.len(),
        forall|i: int| upto <= i < text.len() ==> is_white_space(#[trigger] text[i]),
        0 < upto ==> !is_white_space(text[upto - 1]),
    ensures
        trim_end(text) == text.take(upto),
    decreases text.len() - upto,
{
    if upto == text.len() {
        assert(text.take(upto) =~= text);
    } else {
        lemma_trim_end(text.drop_last(), upto);
        assert(text.drop_last().take(upto) =~= text.take(upto));
    }
}

/// The text of written lines has as its payload the payload lines among them, put
/// together.
proof fn lemma_payload_of_ended(lines: Seq<Seq<char>>, endings: Seq<Seq<char>>)
    requires
        are_line_endings(endings, lines.len()),
        forall|i: int| 0 <= i < lines.len() ==> is_written_line(#[trigger] lines[i]),
    ensures
        payload_of(ended_lines(lines, endings)) == lines.filter(payload_lines()).flatten(),
    decreases lines.len(),
{
    reveal_with_fuel(Seq::filter, 1);
    if lines.len() > 0 {
        let line = lines[0];
        let ending = endings[0];
        let rest = lines.drop_first();
        let text = ended_lines(lines, endings);
        assert(is_written_line(line));
        assert(lines =~= seq![line] + rest);
        lemma_kept_prepend(line, rest);
        if ending.len() == 0 {
            assert(rest =~= Seq::<Seq<char>>::empty());
            assert(ended_lines(rest, endings.drop_first()) =~= Seq::<char>::empty());
            assert(text =~= line);
            assert(lines_of(Seq::<char>::empty()) =~= Seq::<Seq<char>>::empty());
            if line.len() > 0 {
                assert forall|i: int| !occurs_at(text, newline(), i) by {
                    if occurs_at(text, newline(), i) {
                        assert(text.subrange(i, i + 1)[0] == '\n');
                        assert(line[i] == '\n');
                    }
                }
                lemma_first_occurrence_none(text, newline());
                lemma_payload_step(text);
            }
        } else {
            let at = line.len() + ending.len() - 1;
            assert(text.subrange(at, at + 1) =~= newline());
            assert forall|i: int| 0 <= i < at implies !occurs_at(text, newline(), i) by {
                if occurs_at(text, newline(), i) {
                    assert(text.subrange(i, i + 1)[0] == '\n');
                    if i < line.len() {
                        assert(line[i] == '\n');
                    }
                }
            }
            lemma_first_occurrence_is(text, newline(), at);
            assert(text.take(at) =~= if ending.len() == 1 {
                line
            } else {
                line.push('\r')
            });
            assert(line.push('\r').drop_last() =~= line);
            assert(text.skip(at + 1) =~= ended_lines(rest, endings.drop_first()));
            assert forall|i: int| 0 <= i < rest.len() implies is_written_line(
                #[trigger] rest[i],
            ) by {
                assert(rest[i] == lines[i + 1]);
            }
            assert forall|i: int| 0 <= i < endings.drop_first().len() implies is_line_ending(
                #[trigger] endings.drop_first()[i],
            ) || (i == endings.drop_first().len() - 1 && endings.drop_first()[i].len() == 0) by {
                assert(endings.drop_first()[i] == endings[i + 1]);
            }
            lemma_payload_of_ended(rest, endings.drop_first());
            lemma_payload_step(text);
        }
    }
}

/// Lines of base64 text are all kept but the empty ones, which add nothing.
proof fn lemma_base64_lines_kept(body: Seq<Seq<char>>)
    requires
        forall|i: int| 0 <= i < body.len() ==> is_base64_text(#[trigger] body[i]),
    ensures
        body.filter(payload_lines()).flatten() == body.flatten(),
        is_base64_text(body.flatten()),
    decreases body.len(),
{
    if body.len() == 0 {
        reveal_with_fuel(Seq::filter, 1);
    } else {
        let line = body[0];
        let rest = body.drop_first();
        assert forall|i: int| 0 <= i < rest.len() implies is_base64_text(#[trigger] rest[i]) by {
            assert(rest[i] == body[i + 1]);
        }
        lemma_base64_lines_kept(rest);
        assert(body =~= seq![line] + rest);
        lemma_kept_prepend(line, rest);
        if line.len() > 0 {
            assert(is_base64_char(line[0]));
        } else {
            assert(line + rest.flatten() =~= rest.flatten());
        }
        assert forall|i: int| 0 <= i < body.flatten().len() implies is_base64_char(
            #[trigger] body.flatten()[i],
        ) by {
            if i < line.len() {
                assert(body.flatten()[i] == line[i]);
            } else {
                assert(body.flatten()[i] == rest.flatten()[i - line.len()]);
            }
        }
    }
}

/// Base64 text on a single line is its own payload, and trimming changes nothing.
pub proof fn lemma_bare_unchanged(text: Seq<char>)
    requires
        is_base64_text(text),
    ensures
        payload_of(text) == text,
        trimmed(text) == text,
        armor_stripped(text) == text,
{
    reveal_with_fuel(Seq::filter, 1);
    if text.len() == 0 {
        assert(payload_of(text) =~= text);
    } else {
        assert forall|i: int| !occurs_at(text, newline(), i) by {
            if occurs_at(text, newline(), i) {
                assert(text.subrange(i, i + 1)[0] == '\n');
                assert(is_base64_char(text[i]));
            }
        }
        lemma_first_occurrence_none(text, newline());
        lemma_payload_step(text);
        assert(is_base64_char(text[0]));
        assert(lines_of(Seq::<char>::empty()) =~= Seq::<Seq<char>>::empty());
        assert(payload_of(text) =~= text);
        assert(is_base64_char(text.last()));
        lemma_trim_start(text, 0);
        lemma_trim_end(text, text.len() as int);
        assert(text.skip(0) =~= text);
        assert(text.take(text.len() as int) =~= text);
    }
}

/// The armored and the bare encoding of a certificate decode alike: PEM text,
/// whose body is base64 text on any number of lines between two lines of armor,
/// has the body put together as its base64 text, and so has that text by itself.
/// Each line may have its own line ending, and the last line may have none.
pub proof fn lemma_armored_decodes_as_bare(
    header: Seq<char>,
    body: Seq<Seq<char>>,
    footer: Seq<char>,
    endings: Seq<Seq<char>>,
)
    requires
        is_armor_line(header),
        is_armor_line(footer),
        are_line_endings(endings, body.len() + 2),
        forall|i: int| 0 <= i < body.len() ==> is_base64_text(#[trigger] body[i]),
    ensures
        armor_stripped(armored(header, body, footer, endings)) == body.flatten(),
        armor_stripped(body.flatten()) == body.flatten(),
        certificate_bytes(armored(header, body, footer, endings)) == certificate_bytes(
            body.flatten(),
        ),
{
    let lines = seq![header] + body + seq![footer];
    assert forall|i: int| 0 <= i < lines.len() implies is_written_line(#[trigger] lines[i]) by {
        if 0 < i <= body.len() {
            let line = body[i - 1];
            assert(lines[i] == line);
            if line.contains('\n') {
                let k = choose|k: int| 0 <= k < line.len() && line[k] == '\n';
                assert(is_base64_char(line[k]));
            }
            if line.len() > 0 {
                assert(is_base64_char(line.last()));
            }
        }
    }
    lemma_payload_of_ended(lines, endings);
    lemma_base64_lines_kept(body);
    Seq::filter_distributes_over_add(seq![header] + body, seq![footer], payload_lines());
    lemma_kept_prepend(header, body);
    lemma_kept_prepend(footer, Seq::empty());
    reveal_with_fuel(Seq::filter, 1);
    assert(seq![footer] + Seq::<Seq<char>>::empty() =~= seq![footer]);
    lemma_flatten_concat(
        (seq![header] + body).filter(payload_lines()),
        seq![footer].filter(payload_lines()),
    );
    assert(body.flatten() + Seq::<char>::empty() =~= body.flatten());
    lemma_bare_unchanged(body.flatten());
}

/// Tests whether a character is white space.
pub fn is_space(c: char) -> (space: bool)
    ensures
        space == is_white_space(c),
{
    let code: u32 = c as u32;
    (0x09 <= code && code <= 0x0D) || code == 0x20 || code == 0x85 || code == 0xA0 || code
        == 0x1680 || (0x2000 <= code && code <= 0x200A) || code == 0x2028 || code == 0x2029
        || code == 0x202F || code == 0x205F || code == 0x3000
}

/// The range of a text that is left when the white space around it is trimmed:
/// from the first index up to, not including, the second.
pub fn trim_bounds(text: &Vec<char>) -> (bounds: (usize, usize))
    ensures
        bounds.0 <= bounds.1 <= text.len(),
        text@.subrange(bounds.0 as int, bounds.1 as int) == trimmed(text@),
{
    let mut from: usize = 0;
    while from < text.len() && is_space(text[from])
        invariant
            from <= text.len(),
            forall|i: int| 0 <= i < from ==> is_white_space(#[trigger] text@[i]),
        decreases text.len() - from,
    {
        from += 1;
    }
    let ghost rest = text@.skip(from as int);
    let mut to: usize = text.len();
    while to > from && is_space(text[to - 1])
        invariant
            from <= to <= text.len(),
            rest == text@.skip(from as int),
            forall|i: int| to - from <= i < rest.len() ==> is_white_space(#[trigger] rest[i]),
        decreases to - from,
    {
        to -= 1;
    }
    proof {
        lemma_trim_start(text@, from as int);
        lemma_trim_end(rest, to - from);
        assert(rest.take(to - from) =~= text@.subrange(from as int, to as int));
    }
    (from, to)
}

/// Strips the armor from an encoded certificate: drops the empty lines and those
/// that begin with a dash, puts the others together and trims the result.
pub fn strip_armor(encoded: &str) -> (stripped: String)
    ensures
        stripped@ == armor_stripped(encoded@),
{
    let chars = chars_of(encoded);
    let feed: Vec<char> = vec!['\n'];
    assert(feed@ =~= newline());
    let mut payload = String::new();
    let mut from: usize = 0;
    assert(chars@.skip(0) =~= chars@);
    while from < chars.len()
        invariant
            chars@ == encoded@,
            feed@ == newline(),
            from <= chars.len(),
            payload@ + payload_of(chars@.skip(from as int)) == payload_of(chars@),
        decreases chars.len() - from,
    {
        let ghost rest = chars@.skip(from as int);
        let ghost before = payload@;
        proof {
            lemma_payload_step(rest);
            lemma_first_occurrence_none(rest, newline());
        }
        let (end, next) = match find_from(&chars, &feed, from) {
            Some(at) => {
                proof {
                    assert(rest.take(at - from) =~= chars@.subrange(from as int, at as int));
                    assert(rest.skip(at - from + 1) =~= chars@.skip(at + 1));
                }
                if at > from && chars[at - 1] == '\r' {
                    proof {
                        assert(rest.take(at - from).drop_last() =~= chars@.subrange(
                            from as int,
                            at - 1,
                        ));
                    }
                    (at - 1, at + 1)
                } else {
                    (at, at + 1)
                }
            },
            None => {
                proof {
                    assert(rest =~= chars@.subrange(from as int, chars.len() as int));
                    assert(Seq::<char>::empty() =~= chars@.skip(chars.len() as int));
                }
                (chars.len(), chars.len())
            },
        };
        assert(first_line(rest) == chars@.subrange(from as int, end as int));
        assert(after_first_line(rest) == chars@.skip(next as int));
        if end > from && chars[from] != '-' {
            payload.append(encoded.substring_char(from, end));
        }
        proof {
            let line = first_line(rest);
            let onward = payload_of(after_first_line(rest));
            if is_payload_line(line) {
                assert(before + (line + onward) =~= (before + line) + onward);
            }
        }
        from = next;
    }
    proof {
        reveal_with_fuel(Seq::filter, 1);
        assert(lines_of(chars@.skip(from as int)) =~= Seq::<Seq<char>>::empty());
        assert(payload@ + Seq::<char>::empty() =~= payload@);
    }
    let kept = chars_of(payload.as_str());
    let (first, last) = trim_bounds(&kept);
    payload.as_str().substring_char(first, last).to_owned()
}

/// Calls `base64::decode_config` with the configuration `STANDARD_NO_PAD`: the
/// standard alphabet, padding neither asked for nor refused. Of an error the wrapper
/// keeps what `Debug` prints: its kind and, for a byte, its offset and value. The
/// contract names the result, so that the same text always decodes alike. The
/// crate's sums on the length of the text are checked and cannot overflow on the
/// length of a string.
#[verifier::external_body]
fn base64_decode(text: &str) -> (decoded: Result<Vec<u8>, String>)
    ensures
        match decoded {
            Ok(bytes) => base64_decoded(text@) == Ok::<Seq<u8>, Seq<char>>(bytes@),
            Err(reason) => base64_decoded(text@) == Err::<Seq<u8>, Seq<char>>(reason@),
        },
{
    match base64::decode_config(text, base64::STANDARD_NO_PAD) {
        Ok(bytes) => Ok(bytes),
        Err(error) => Err(format!("{:?}", error)),
    }
}

/// Says of what base64 decoding gave for the certificate at `position` what the
/// decoder returns: the bytes, or what was wrong together with the position.
pub fn place_fault(decoded: Result<Vec<u8>, String>, position: usize) -> (placed: Result<
    Vec<u8>,
    DecodeError,
>)
    ensures
        match decoded {
            Ok(bytes) => placed == Ok::<Vec<u8>, DecodeError>(bytes),
            Err(reason) => placed is Err && placed->Err_0@ == (DecodeFailure {
                position,
                reason: reason@,
            }),
        },
{
    match decoded {
        Ok(bytes) => Ok(bytes),
        Err(reason) => Err(DecodeError { position, reason }),
    }
}

/// Decodes the encoded certificate at `position` of the chain: strips the armor and
/// decodes what is left as base64. A text that is no base64 fails with the position
/// and with what is wrong.
pub fn decode_certificate(encoded: &str, position: usize) -> (decoded: Result<
    Vec<u8>,
    DecodeError,
>)
    ensures
        match certificate_bytes(encoded@) {
            Ok(bytes) => decoded is Ok && decoded->Ok_0@ == bytes,
            Err(reason) => decoded is Err && decoded->Err_0@ == (DecodeFailure {
                position,
                reason,
            }),
        },
{
    let stripped = strip_armor(encoded);
    place_fault(base64_decode(stripped.as_str()), position)
}

} // verus!
