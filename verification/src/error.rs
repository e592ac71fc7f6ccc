//! What can be wrong with what a peer sent or a caller asked.

use vstd::prelude::*;

use crate::mms::{Pdu, PduView};

verus! {

/// Why bytes are not what this library reads.
#[derive(Clone, Copy, Debug, PartialEq, Eq, Structural)]
pub enum ProtocolError {
    /// An element cut short at its tag.
    CutAtTag,
    /// A tag of the multi-byte form.
    MultiByteTag,
    /// An element cut short at its length.
    CutAtLength,
    /// A length of the indefinite form, or wider than four bytes.
    IndefiniteOrTooWide,
    /// An element cut short in its length.
    CutInLength,
    /// A length past the end.
    PastTheEnd,
    /// An INTEGER of no bytes or more than eight.
    IntegerWidth,
    /// No element with this tag.
    NoElement(u8),
    /// Bytes after the PDU.
    BytesAfterPdu,
    /// A PDU with a tag that no PDU of this library has.
    UnknownPdu(u8),
    /// A confirmed PDU without its invoke identifier.
    NoInvoke,
    /// An invoke identifier outside thirty-two bits.
    InvokeRange,
    /// An initiate that is not laid out as one, or of another version.
    InitiateShape,
    /// A NULL that is not empty.
    NullContents,
    /// An element where one of another tag belongs.
    Misplaced(u8),
    /// Bytes after an element that stands alone.
    BytesAfterElement,
    /// A read request that is more than the specification of its variable.
    ReadShape,
    /// Bytes after the service.
    BytesAfterService,
    /// A service that is neither read nor write.
    UnknownService(u8),
    /// A name that is not domain-specific.
    NotDomainSpecific,
    /// A domain-specific name without its two identifiers.
    NotTwoIdentifiers,
    /// Data that is not an octet string.
    NotOctetString,
    /// A write result that is neither success nor failure.
    NoWriteResult,
    /// An access result that is neither data nor failure.
    NoAccessResult,
    /// A payload shorter than a GOOSE header.
    ShortHeader,
    /// A GOOSE length that is not the payload's.
    PayloadLength,
    /// A PDU that is not a goosePDU.
    NotGoosePdu,
    /// A time that is not eight bytes.
    TimeWidth,
    /// A data set entry that is not an octet string.
    EntryNotOctetString,
    /// A GOOSE number outside thirty-two bits.
    NumberRange,
    /// `numDatSetEntries` that is not the number of entries.
    EntryCount,
}

/// What a client asked of a server.
#[derive(Clone, Copy, Debug, PartialEq, Eq, Structural)]
pub enum Asked {
    Initiate,
    Read,
    Write,
    Conclude,
}

/// Why an exchange did not come to what was asked.
#[derive(Clone, Debug, PartialEq, Eq)]
pub enum Error {
    /// The peer sent what this library does not read.
    Protocol(ProtocolError),
    /// The client sent a PDU that is not a request.
    NotARequest(Pdu),
    /// The server answered with a PDU that is no answer to what was asked.
    UnexpectedAnswer { asked: Asked, answer: Pdu },
    /// The server answered another invoke.
    AnotherInvoke,
    /// The server closed before answering.
    Closed,
    /// The server refused the variable with a data access error.
    Refused { domain: String, item: String, error: i64 },
    /// A target that names no variable.
    NoVariableNamed { target: String },
    /// The variable went missing.
    VariableMissing,
}

/// What an error says.
#[verifier::ext_equal]
pub enum ErrorView {
    Protocol(ProtocolError),
    NotARequest(PduView),
    UnexpectedAnswer { asked: Asked, answer: PduView },
    AnotherInvoke,
    Closed,
    Refused { domain: Seq<char>, item: Seq<char>, error: i64 },
    NoVariableNamed { target: Seq<char> },
    VariableMissing,
}

impl View for Error {
    type V = ErrorView;

    open spec fn view(&self) -> ErrorView {
        match *self {
            Error::Protocol(error) => ErrorView::Protocol(error),
            Error::NotARequest(pdu) => ErrorView::NotARequest(pdu@),
            Error::UnexpectedAnswer { asked, answer } => ErrorView::UnexpectedAnswer {
                asked,
                answer: answer@,
            },
            Error::AnotherInvoke => ErrorView::AnotherInvoke,
            Error::Closed => ErrorView::Closed,
            Error::Refused { domain, item, error } => ErrorView::Refused {
                domain: domain@,
                item: item@,
                error,
            },
            Error::NoVariableNamed { target } => ErrorView::NoVariableNamed { target: target@ },
            Error::VariableMissing => ErrorView::VariableMissing,
        }
    }
}

/// What an error says is what its fields hold.
pub proof fn an_error_says_what_its_fields_hold(error: Error)
    ensures
        match error {
            Error::Protocol(inner) => error@ == ErrorView::Protocol(inner),
            Error::NotARequest(pdu) => error@ == ErrorView::NotARequest(pdu@),
            Error::UnexpectedAnswer { asked, answer } => error@ == (ErrorView::UnexpectedAnswer {
                asked,
                answer: answer@,
            }),
            Error::AnotherInvoke => error@ == ErrorView::AnotherInvoke,
            Error::Closed => error@ == ErrorView::Closed,
            Error::Refused { domain, item, error: number } => error@ == (ErrorView::Refused {
                domain: domain@,
                item: item@,
                error: number,
            }),
            Error::NoVariableNamed { target } => error@ == (ErrorView::NoVariableNamed {
                target: target@,
            }),
            Error::VariableMissing => error@ == ErrorView::VariableMissing,
        },
{
}

} // verus!
