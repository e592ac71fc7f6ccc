//! What an error says, in words.

use vstd::arithmetic::div_mod;
use vstd::arithmetic::power;
use vstd::prelude::*;

use crate::error::{Asked, Error, ErrorView, ProtocolError};
use crate::mms::{Pdu, PduView};

verus! {

/// The sixteen digits.
pub open spec fn digit(value: int) -> char {
    seq!['0', '1', '2', '3', '4', '5', '6', '7', '8', '9', 'a', 'b', 'c', 'd', 'e', 'f'][value]
}

/// A natural number in decimal.
pub open spec fn natural_text(number: nat) -> Seq<char>
    decreases number,
{
    if number < 10 {
        seq![digit(number as int)]
    } else {
        natural_text(number / 10).push(digit((number % 10) as int))
    }
}

/// An integer in decimal.
pub open spec fn integer_text(number: int) -> Seq<char> {
    if number < 0 {
        seq!['-'] + natural_text((-number) as nat)
    } else {
        natural_text(number as nat)
    }
}

/// An octet in hexadecimal, two digits after `0x`.
pub open spec fn octet_text(octet: u8) -> Seq<char> {
    seq!['0', 'x', digit(octet as int / 16), digit(octet as int % 16)]
}

/// What `Debug` writes for a string: in quotes, and escaped.
pub uninterp spec fn quoted_text(text: Seq<char>) -> Seq<char>;

/// Octets in decimal, one after another.
pub open spec fn listed_octets(octets: Seq<u8>) -> Seq<char>
    decreases octets.len(),
{
    if octets.len() == 0 {
        Seq::empty()
    } else if octets.len() == 1 {
        natural_text(octets[0] as nat)
    } else {
        listed_octets(octets.drop_last()) + ", "@ + natural_text(octets.last() as nat)
    }
}

/// A PDU as it is shown to a reader.
pub open spec fn pdu_text(pdu: PduView) -> Seq<char> {
    match pdu {
        PduView::Initiate => "Initiate"@,
        PduView::InitiateOk => "InitiateOk"@,
        PduView::Write { invoke, domain, item, data } => "Write { invoke: "@ + natural_text(
            invoke as nat,
        ) + ", domain: "@ + quoted_text(domain) + ", item: "@ + quoted_text(item) + ", data: ["@
            + listed_octets(data) + "] }"@,
        PduView::WriteOk { invoke } => "WriteOk { invoke: "@ + natural_text(invoke as nat)
            + " }"@,
        PduView::WriteFailed { invoke, error } => "WriteFailed { invoke: "@ + natural_text(
            invoke as nat,
        ) + ", error: "@ + integer_text(error as int) + " }"@,
        PduView::Read { invoke, domain, item } => "Read { invoke: "@ + natural_text(
            invoke as nat,
        ) + ", domain: "@ + quoted_text(domain) + ", item: "@ + quoted_text(item) + " }"@,
        PduView::ReadOk { invoke, data } => "ReadOk { invoke: "@ + natural_text(invoke as nat)
            + ", data: ["@ + listed_octets(data) + "] }"@,
        PduView::ReadFailed { invoke, error } => "ReadFailed { invoke: "@ + natural_text(
            invoke as nat,
        ) + ", error: "@ + integer_text(error as int) + " }"@,
        PduView::Conclude => "Conclude"@,
        PduView::ConcludeOk => "ConcludeOk"@,
    }
}

/// What is wrong with what a peer sent, in words.
pub open spec fn protocol_text(error: ProtocolError) -> Seq<char> {
    match error {
        ProtocolError::CutAtTag => "an element cut short at its tag"@,
        ProtocolError::MultiByteTag => "a tag of the multi-byte form"@,
        ProtocolError::CutAtLength => "an element cut short at its length"@,
        ProtocolError::IndefiniteOrTooWide => "a length of the indefinite form, or too wide"@,
        ProtocolError::CutInLength => "an element cut short in its length"@,
        ProtocolError::PastTheEnd => "a length past the end"@,
        ProtocolError::IntegerWidth => "an INTEGER of no bytes or too many"@,
        ProtocolError::NoElement(tag) => "no element tagged "@ + octet_text(tag),
        ProtocolError::BytesAfterPdu => "bytes after the PDU"@,
        ProtocolError::UnknownPdu(tag) => "PDU "@ + octet_text(tag)
            + " is not MMS this transport speaks"@,
        ProtocolError::NoInvoke => "a confirmed PDU without its invoke identifier"@,
        ProtocolError::InvokeRange => "an invoke identifier outside thirty-two bits"@,
        ProtocolError::InitiateShape => "an initiate of another shape or version"@,
        ProtocolError::NullContents => "a NULL that is not empty"@,
        ProtocolError::Misplaced(tag) => "an element tagged "@ + octet_text(tag)
            + " out of its place"@,
        ProtocolError::BytesAfterElement => "bytes after an element that stands alone"@,
        ProtocolError::ReadShape => "a read request of another shape"@,
        ProtocolError::BytesAfterService => "bytes after the service"@,
        ProtocolError::UnknownService(tag) => "service "@ + octet_text(tag)
            + " is not one this transport speaks"@,
        ProtocolError::NotDomainSpecific => "a name that is not domain-specific"@,
        ProtocolError::NotTwoIdentifiers => "a domain-specific name without its two identifiers"@,
        ProtocolError::NotOctetString => "data that is not an octet string"@,
        ProtocolError::NoWriteResult => "a write result that is neither success nor failure"@,
        ProtocolError::NoAccessResult => "an access result that is neither data nor failure"@,
        ProtocolError::ShortHeader => "shorter than a GOOSE header"@,
        ProtocolError::PayloadLength => "a GOOSE length that is not the payload's"@,
        ProtocolError::NotGoosePdu => "a PDU that is not a goosePDU"@,
        ProtocolError::TimeWidth => "a time that is not eight bytes"@,
        ProtocolError::EntryNotOctetString => "a data set entry that is not an octet string"@,
        ProtocolError::NumberRange => "a GOOSE number outside thirty-two bits"@,
        ProtocolError::EntryCount => "numDatSetEntries that is not the entries"@,
    }
}

/// What was asked, in a word.
pub open spec fn asked_text(asked: Asked) -> Seq<char> {
    match asked {
        Asked::Initiate => "initiate"@,
        Asked::Read => "read"@,
        Asked::Write => "write"@,
        Asked::Conclude => "conclude"@,
    }
}

/// Why an exchange did not come to what was asked, in words.
pub open spec fn error_text(error: ErrorView) -> Seq<char> {
    match error {
        ErrorView::Protocol(inner) => protocol_text(inner),
        ErrorView::NotARequest(pdu) => pdu_text(pdu) + " is not a request this session serves"@,
        ErrorView::UnexpectedAnswer { asked, answer } => "the server answered "@ + asked_text(
            asked,
        ) + " with "@ + pdu_text(answer),
        ErrorView::AnotherInvoke => "an answer to another invoke"@,
        ErrorView::Closed => "the server closed before answering"@,
        ErrorView::Refused { domain, item, error } => domain + "/"@ + item
            + ": the server answered data access error "@ + integer_text(error as int),
        ErrorView::NoVariableNamed { target } => quoted_text(target)
            + " does not name <domain>/<item>"@,
        ErrorView::VariableMissing => "the variable went missing"@,
    }
}

/// One digit.
fn digit_text(value: u8) -> (text: &'static str)
    requires
        value < 16,
    ensures
        text@ == seq![digit(value as int)],
{
    proof {
        reveal_strlit("0");
        reveal_strlit("1");
        reveal_strlit("2");
        reveal_strlit("3");
        reveal_strlit("4");
        reveal_strlit("5");
        reveal_strlit("6");
        reveal_strlit("7");
        reveal_strlit("8");
        reveal_strlit("9");
        reveal_strlit("a");
        reveal_strlit("b");
        reveal_strlit("c");
        reveal_strlit("d");
        reveal_strlit("e");
        reveal_strlit("f");
    }
    let text: &'static str = match value {
        0 => "0",
        1 => "1",
        2 => "2",
        3 => "3",
        4 => "4",
        5 => "5",
        6 => "6",
        7 => "7",
        8 => "8",
        9 => "9",
        10 => "a",
        11 => "b",
        12 => "c",
        13 => "d",
        14 => "e",
        _ => "f",
    };
    assert(text@ =~= seq![digit(value as int)]);
    text
}

/// Append a natural number in decimal.
fn push_natural(out: &mut String, number: u64)
    ensures
        final(out)@ == old(out)@ + natural_text(number as nat),
    decreases number,
{
    if number >= 10 {
        push_natural(out, number / 10);
    }
    out.append(digit_text((number % 10) as u8));
    assert(out@ =~= old(out)@ + natural_text(number as nat));
}

/// Append an integer in decimal.
fn push_integer(out: &mut String, number: i64)
    ensures
        final(out)@ == old(out)@ + integer_text(number as int),
{
    if number < 0 {
        out.append("-");
        proof {
            reveal_strlit("-");
            assert("-"@ =~= seq!['-']);
        }
        let magnitude: u64 = (-1 - number) as u64 + 1;
        push_natural(out, magnitude);
        assert(out@ =~= old(out)@ + integer_text(number as int));
    } else {
        push_natural(out, number as u64);
    }
}

/// Append an octet in hexadecimal.
fn push_octet(out: &mut String, octet: u8)
    ensures
        final(out)@ == old(out)@ + octet_text(octet),
{
    out.append("0x");
    out.append(digit_text(octet / 16));
    out.append(digit_text(octet % 16));
    proof {
        reveal_strlit("0x");
        assert(out@ =~= old(out)@ + octet_text(octet));
    }
}

/// Append octets in decimal, one after another.
fn push_octets(out: &mut String, octets: &[u8])
    ensures
        final(out)@ == old(out)@ + listed_octets(octets@),
{
    let mut i: usize = 0;
    while i < octets.len()
        invariant
            i <= octets@.len(),
            out@ == old(out)@ + listed_octets(octets@.take(i as int)),
        decreases octets@.len() - i,
    {
        let ghost before = out@;
        if i > 0 {
            out.append(", ");
        }
        push_natural(out, octets[i] as u64);
        proof {
            let next = octets@.take(i + 1);
            assert(next.drop_last() =~= octets@.take(i as int));
            if i == 0 {
                assert(before =~= old(out)@);
            }
            assert(out@ =~= old(out)@ + listed_octets(next));
        }
        i = i + 1;
    }
    assert(octets@.take(i as int) =~= octets@);
}

/// `Debug` of a string: the string in quotes, with what is not plain text
/// escaped. What is escaped, and how, is not said beyond the name that the
/// result has.
#[verifier::external_body]
fn quoted(text: &str) -> (shown: String)
    ensures
        shown@ == quoted_text(text@),
{
    format!("{:?}", text)
}

/// Append a variable's name as a PDU shows it.
fn push_name(out: &mut String, domain: &str, item: &str)
    ensures
        final(out)@ == old(out)@ + ", domain: "@ + quoted_text(domain@) + ", item: "@
            + quoted_text(item@),
{
    let shown_domain = quoted(domain);
    let shown_item = quoted(item);
    out.append(", domain: ");
    out.append(shown_domain.as_str());
    out.append(", item: ");
    out.append(shown_item.as_str());
}

impl Pdu {
    /// The PDU as it is shown to a reader.
    pub fn shown(&self) -> (shown: String)
        ensures
            shown@ == pdu_text(self@),
    {
        match self {
            Pdu::Initiate => "Initiate".to_string(),
            Pdu::InitiateOk => "InitiateOk".to_string(),
            Pdu::Write { invoke, domain, item, data } => {
                let mut out = "Write { invoke: ".to_string();
                push_natural(&mut out, *invoke as u64);
                push_name(&mut out, domain.as_str(), item.as_str());
                out.append(", data: [");
                push_octets(&mut out, data.as_slice());
                out.append("] }");
                out
            },
            Pdu::WriteOk { invoke } => {
                let mut out = "WriteOk { invoke: ".to_string();
                push_natural(&mut out, *invoke as u64);
                out.append(" }");
                out
            },
            Pdu::WriteFailed { invoke, error } => {
                let mut out = "WriteFailed { invoke: ".to_string();
                push_natural(&mut out, *invoke as u64);
                out.append(", error: ");
                push_integer(&mut out, *error);
                out.append(" }");
                out
            },
            Pdu::Read { invoke, domain, item } => {
                let mut out = "Read { invoke: ".to_string();
                push_natural(&mut out, *invoke as u64);
                push_name(&mut out, domain.as_str(), item.as_str());
                out.append(" }");
                out
            },
            Pdu::ReadOk { invoke, data } => {
                let mut out = "ReadOk { invoke: ".to_string();
                push_natural(&mut out, *invoke as u64);
                out.append(", data: [");
                push_octets(&mut out, data.as_slice());
                out.append("] }");
                out
            },
            Pdu::ReadFailed { invoke, error } => {
                let mut out = "ReadFailed { invoke: ".to_string();
                push_natural(&mut out, *invoke as u64);
                out.append(", error: ");
                push_integer(&mut out, *error);
                out.append(" }");
                out
            },
            Pdu::Conclude => "Conclude".to_string(),
            Pdu::ConcludeOk => "ConcludeOk".to_string(),
        }
    }
}

impl ProtocolError {
    /// What is wrong, in words.
    pub fn message(&self) -> (message: String)
        ensures
            message@ == protocol_text(*self),
    {
        match self {
            ProtocolError::CutAtTag => "an element cut short at its tag".to_string(),
            ProtocolError::MultiByteTag => "a tag of the multi-byte form".to_string(),
            ProtocolError::CutAtLength => "an element cut short at its length".to_string(),
            ProtocolError::IndefiniteOrTooWide => {
                "a length of the indefinite form, or too wide".to_string()
            },
            ProtocolError::CutInLength => "an element cut short in its length".to_string(),
            ProtocolError::PastTheEnd => "a length past the end".to_string(),
            ProtocolError::IntegerWidth => "an INTEGER of no bytes or too many".to_string(),
            ProtocolError::NoElement(tag) => {
                let mut out = "no element tagged ".to_string();
                push_octet(&mut out, *tag);
                out
            },
            ProtocolError::BytesAfterPdu => "bytes after the PDU".to_string(),
            ProtocolError::UnknownPdu(tag) => {
                let mut out = "PDU ".to_string();
                push_octet(&mut out, *tag);
                out.append(" is not MMS this transport speaks");
                out
            },
            ProtocolError::NoInvoke => "a confirmed PDU without its invoke identifier".to_string(),
            ProtocolError::InvokeRange => "an invoke identifier outside thirty-two bits".to_string(),
            ProtocolError::InitiateShape => "an initiate of another shape or version".to_string(),
            ProtocolError::NullContents => "a NULL that is not empty".to_string(),
            ProtocolError::Misplaced(tag) => {
                let mut out = "an element tagged ".to_string();
                push_octet(&mut out, *tag);
                out.append(" out of its place");
                out
            },
            ProtocolError::BytesAfterElement => {
                "bytes after an element that stands alone".to_string()
            },
            ProtocolError::ReadShape => "a read request of another shape".to_string(),
            ProtocolError::BytesAfterService => "bytes after the service".to_string(),
            ProtocolError::UnknownService(tag) => {
                let mut out = "service ".to_string();
                push_octet(&mut out, *tag);
                out.append(" is not one this transport speaks");
                out
            },
            ProtocolError::NotDomainSpecific => "a name that is not domain-specific".to_string(),
            ProtocolError::NotTwoIdentifiers => {
                "a domain-specific name without its two identifiers".to_string()
            },
            ProtocolError::NotOctetString => "data that is not an octet string".to_string(),
            ProtocolError::NoWriteResult => {
                "a write result that is neither success nor failure".to_string()
            },
            ProtocolError::NoAccessResult => {
                "an access result that is neither data nor failure".to_string()
            },
            ProtocolError::ShortHeader => "shorter than a GOOSE header".to_string(),
            ProtocolError::PayloadLength => "a GOOSE length that is not the payload's".to_string(),
            ProtocolError::NotGoosePdu => "a PDU that is not a goosePDU".to_string(),
            ProtocolError::TimeWidth => "a time that is not eight bytes".to_string(),
            ProtocolError::EntryNotOctetString => {
                "a data set entry that is not an octet string".to_string()
            },
            ProtocolError::NumberRange => "a GOOSE number outside thirty-two bits".to_string(),
            ProtocolError::EntryCount => "numDatSetEntries that is not the entries".to_string(),
        }
    }
}

impl Asked {
    /// What was asked, in a word.
    pub fn word(&self) -> (word: &'static str)
        ensures
            word@ == asked_text(*self),
    {
        match self {
            Asked::Initiate => "initiate",
            Asked::Read => "read",
            Asked::Write => "write",
            Asked::Conclude => "conclude",
        }
    }
}

impl Error {
    /// Why the exchange did not come to what was asked, in words.
    pub fn message(&self) -> (message: String)
        ensures
            message@ == error_text(self@),
    {
        match self {
            Error::Protocol(inner) => inner.message(),
            Error::NotARequest(pdu) => {
                let mut out = pdu.shown();
                out.append(" is not a request this session serves");
                out
            },
            Error::UnexpectedAnswer { asked, answer } => {
                let shown = answer.shown();
                let mut out = "the server answered ".to_string();
                out.append(asked.word());
                out.append(" with ");
                out.append(shown.as_str());
                out
            },
            Error::AnotherInvoke => "an answer to another invoke".to_string(),
            Error::Closed => "the server closed before answering".to_string(),
            Error::Refused { domain, item, error } => {
                let mut out = domain.clone();
                out.append("/");
                out.append(item.as_str());
                out.append(": the server answered data access error ");
                push_integer(&mut out, *error);
                out
            },
            Error::NoVariableNamed { target } => {
                let mut out = quoted(target.as_str());
                out.append(" does not name <domain>/<item>");
                out
            },
            Error::VariableMissing => "the variable went missing".to_string(),
        }
    }
}

proof fn lemma_decimal_step(number: nat, e: nat)
    requires
        e > 0,
    ensures
        power::pow(10, e) == 10 * power::pow(10, (e - 1) as nat),
        (number as int / 10) / power::pow(10, (e - 1) as nat) == number as int / power::pow(10, e),
{
    reveal(power::pow);
    power::lemma_pow_positive(10, (e - 1) as nat);
    div_mod::lemma_div_denominator(number as int, 10, power::pow(10, (e - 1) as nat));
}

/// A number is written with its decimal digits, each in its place, and no more
/// of them than it takes.
pub proof fn digits_stand_in_their_decimal_places(number: nat)
    ensures
        ({
            let text = natural_text(number);
            &&& text.len() > 0
            &&& number < power::pow(10, text.len())
            &&& text.len() > 1 ==> power::pow(10, (text.len() - 1) as nat) <= number
            &&& forall|i: int|
                0 <= i < text.len() ==> #[trigger] text[i] as int == '0' as int + (number as int
                    / power::pow(10, (text.len() - 1 - i) as nat)) % 10
        }),
    decreases number,
{
    let text = natural_text(number);
    power::lemma_pow0(10);
    if number < 10 {
        power::lemma_pow1(10);
    } else {
        let front = natural_text(number / 10);
        digits_stand_in_their_decimal_places(number / 10);
        lemma_decimal_step(number, text.len());
        lemma_decimal_step(number, front.len());
        assert forall|i: int| 0 <= i < text.len() implies #[trigger] text[i] as int == '0' as int
            + (number as int / power::pow(10, (text.len() - 1 - i) as nat)) % 10 by {
            if i < front.len() {
                assert(front[i] == text[i]);
                lemma_decimal_step(number, (text.len() - 1 - i) as nat);
            }
        }
    }
}

/// A number below zero has a minus before its digits, and an octet is `0x` and
/// two hexadecimal digits.
pub proof fn signs_and_octets_in_words(number: int, octet: u8)
    ensures
        number >= 0 ==> integer_text(number) == natural_text(number as nat),
        number < 0 ==> integer_text(number) == seq!['-'] + natural_text((-number) as nat),
        octet_text(octet).len() == 4,
        octet_text(octet)[0] == '0',
        octet_text(octet)[1] == 'x',
        octet_text(octet)[2] as int == octet / 16 + (if octet / 16 < 10 {
            '0' as int
        } else {
            'a' as int - 10
        }),
        octet_text(octet)[3] as int == octet % 16 + (if octet % 16 < 10 {
            '0' as int
        } else {
            'a' as int - 10
        }),
{
}

/// Octets are listed in their order, parted by commas.
pub proof fn octets_are_listed_in_order(octets: Seq<u8>, last: u8)
    ensures
        listed_octets(Seq::empty()) == Seq::<char>::empty(),
        octets.len() == 0 ==> listed_octets(octets.push(last)) == natural_text(last as nat),
        octets.len() > 0 ==> listed_octets(octets.push(last)) == listed_octets(octets) + ", "@
            + natural_text(last as nat),
{
    assert(octets.push(last).drop_last() =~= octets);
}

/// A PDU is shown with its name and all of its fields.
pub proof fn a_pdu_is_shown_with_its_fields(
    invoke: u32,
    domain: Seq<char>,
    item: Seq<char>,
    data: Seq<u8>,
    error: i64,
)
    ensures
        pdu_text(PduView::Write { invoke, domain, item, data }) == "Write { invoke: "@
            + natural_text(invoke as nat) + ", domain: "@ + quoted_text(domain) + ", item: "@
            + quoted_text(item) + ", data: ["@ + listed_octets(data) + "] }"@,
        pdu_text(PduView::Read { invoke, domain, item }) == "Read { invoke: "@ + natural_text(
            invoke as nat,
        ) + ", domain: "@ + quoted_text(domain) + ", item: "@ + quoted_text(item) + " }"@,
        pdu_text(PduView::ReadOk { invoke, data }) == "ReadOk { invoke: "@ + natural_text(
            invoke as nat,
        ) + ", data: ["@ + listed_octets(data) + "] }"@,
        pdu_text(PduView::WriteOk { invoke }) == "WriteOk { invoke: "@ + natural_text(
            invoke as nat,
        ) + " }"@,
        pdu_text(PduView::WriteFailed { invoke, error }) == "WriteFailed { invoke: "@
            + natural_text(invoke as nat) + ", error: "@ + integer_text(error as int) + " }"@,
        pdu_text(PduView::ReadFailed { invoke, error }) == "ReadFailed { invoke: "@
            + natural_text(invoke as nat) + ", error: "@ + integer_text(error as int) + " }"@,
{
}

/// An error says in words the tag, the PDU, the variable, the number or the
/// target that it is about.
pub proof fn an_error_says_what_it_is_about(
    tag: u8,
    inner: ProtocolError,
    asked: Asked,
    pdu: PduView,
    domain: Seq<char>,
    item: Seq<char>,
    error: i64,
    target: Seq<char>,
)
    ensures
        protocol_text(ProtocolError::NoElement(tag)) == "no element tagged "@ + octet_text(tag),
        protocol_text(ProtocolError::UnknownPdu(tag)) == "PDU "@ + octet_text(tag)
            + " is not MMS this transport speaks"@,
        protocol_text(ProtocolError::UnknownService(tag)) == "service "@ + octet_text(tag)
            + " is not one this transport speaks"@,
        protocol_text(ProtocolError::Misplaced(tag)) == "an element tagged "@ + octet_text(tag)
            + " out of its place"@,
        error_text(ErrorView::Protocol(inner)) == protocol_text(inner),
        error_text(ErrorView::NotARequest(pdu)) == pdu_text(pdu)
            + " is not a request this session serves"@,
        error_text(ErrorView::UnexpectedAnswer { asked, answer: pdu }) == "the server answered "@
            + asked_text(asked) + " with "@ + pdu_text(pdu),
        error_text(ErrorView::Refused { domain, item, error }) == domain + "/"@ + item
            + ": the server answered data access error "@ + integer_text(error as int),
        error_text(ErrorView::NoVariableNamed { target }) == quoted_text(target)
            + " does not name <domain>/<item>"@,
{
}

} // verus!
