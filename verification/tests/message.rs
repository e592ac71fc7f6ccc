use iec61850::error::{Asked, Error, ProtocolError};
use iec61850::Pdu;

#[test]
fn protocol_errors_say_what_is_wrong() {
    for (error, message) in [
        (ProtocolError::CutAtTag, "an element cut short at its tag"),
        (ProtocolError::MultiByteTag, "a tag of the multi-byte form"),
        (ProtocolError::CutAtLength, "an element cut short at its length"),
        (ProtocolError::IndefiniteOrTooWide, "a length of the indefinite form, or too wide"),
        (ProtocolError::CutInLength, "an element cut short in its length"),
        (ProtocolError::PastTheEnd, "a length past the end"),
        (ProtocolError::IntegerWidth, "an INTEGER of no bytes or too many"),
        (ProtocolError::NoElement(0x05), "no element tagged 0x05"),
        (ProtocolError::BytesAfterPdu, "bytes after the PDU"),
        (ProtocolError::UnknownPdu(0xa2), "PDU 0xa2 is not MMS this transport speaks"),
        (ProtocolError::NoInvoke, "a confirmed PDU without its invoke identifier"),
        (ProtocolError::InvokeRange, "an invoke identifier outside thirty-two bits"),
        (ProtocolError::InitiateShape, "an initiate of another shape or version"),
        (ProtocolError::NullContents, "a NULL that is not empty"),
        (ProtocolError::Misplaced(0x30), "an element tagged 0x30 out of its place"),
        (ProtocolError::BytesAfterElement, "bytes after an element that stands alone"),
        (ProtocolError::ReadShape, "a read request of another shape"),
        (ProtocolError::BytesAfterService, "bytes after the service"),
        (ProtocolError::UnknownService(0xbe), "service 0xbe is not one this transport speaks"),
        (ProtocolError::NotDomainSpecific, "a name that is not domain-specific"),
        (
            ProtocolError::NotTwoIdentifiers,
            "a domain-specific name without its two identifiers",
        ),
        (ProtocolError::NotOctetString, "data that is not an octet string"),
        (ProtocolError::NoWriteResult, "a write result that is neither success nor failure"),
        (ProtocolError::NoAccessResult, "an access result that is neither data nor failure"),
        (ProtocolError::ShortHeader, "shorter than a GOOSE header"),
        (ProtocolError::PayloadLength, "a GOOSE length that is not the payload's"),
        (ProtocolError::NotGoosePdu, "a PDU that is not a goosePDU"),
        (ProtocolError::TimeWidth, "a time that is not eight bytes"),
        (ProtocolError::EntryNotOctetString, "a data set entry that is not an octet string"),
        (ProtocolError::NumberRange, "a GOOSE number outside thirty-two bits"),
        (ProtocolError::EntryCount, "numDatSetEntries that is not the entries"),
    ] {
        assert_eq!(error.message(), message);
        assert_eq!(Error::Protocol(error).message(), message);
    }
}

#[test]
fn a_pdu_is_shown_as_debug_shows_it() {
    for pdu in [
        Pdu::Initiate,
        Pdu::InitiateOk,
        Pdu::Write {
            invoke: 7,
            domain: "a\"b\\".into(),
            item: "Zähler\n".into(),
            data: vec![0, 10, 255],
        },
        Pdu::WriteOk { invoke: u32::MAX },
        Pdu::WriteFailed { invoke: 0, error: i64::MIN },
        Pdu::Read { invoke: 9, domain: String::new(), item: "I".into() },
        Pdu::ReadOk { invoke: 100, data: Vec::new() },
        Pdu::ReadOk { invoke: 100, data: vec![7] },
        Pdu::ReadFailed { invoke: 1, error: -10 },
        Pdu::Conclude,
        Pdu::ConcludeOk,
    ] {
        assert_eq!(pdu.shown(), format!("{pdu:?}"));
    }
}

#[test]
fn errors_of_an_exchange_say_what_happened() {
    let answer = Pdu::ReadOk { invoke: 1, data: vec![1, 2] };
    for (asked, word) in [
        (Asked::Initiate, "initiate"),
        (Asked::Read, "read"),
        (Asked::Write, "write"),
        (Asked::Conclude, "conclude"),
    ] {
        assert_eq!(
            Error::UnexpectedAnswer { asked, answer: answer.clone() }.message(),
            format!("the server answered {word} with ReadOk {{ invoke: 1, data: [1, 2] }}")
        );
    }
    assert_eq!(
        Error::NotARequest(Pdu::WriteOk { invoke: 1 }).message(),
        "WriteOk { invoke: 1 } is not a request this session serves"
    );
    assert_eq!(Error::AnotherInvoke.message(), "an answer to another invoke");
    assert_eq!(Error::Closed.message(), "the server closed before answering");
    assert_eq!(
        Error::Refused { domain: "XMIP".into(), item: "Nothing".into(), error: 10 }.message(),
        "XMIP/Nothing: the server answered data access error 10"
    );
    assert_eq!(
        Error::NoVariableNamed { target: "iec61850://plc:102/only".into() }.message(),
        "\"iec61850://plc:102/only\" does not name <domain>/<item>"
    );
    assert_eq!(Error::VariableMissing.message(), "the variable went missing");
}
