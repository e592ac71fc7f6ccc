//! The manufacturing message specification, ISO 9506-2, as IEC 61850-8-1
//! maps a client-server exchange onto it: initiate, a write and a read of
//! one domain-specific variable holding an octet string, and conclude.
//!
//! Every PDU is one BER element whose context tag says which: `[8]` and
//! `[9]` initiate, `[0]` a confirmed request and `[1]` its response — an
//! invoke identifier and then the service, `[4]` read or `[5]` write —
//! `[11]` and `[12]` conclude. A variable is named by domain and item; the
//! data is `Data`'s octet-string choice, `[9]`.

use vstd::prelude::*;
use vstd::slice::slice_to_vec;
use vstd::utf8;

use crate::ber;
use crate::error::ProtocolError;
use crate::octets;
use crate::text;

verus! {

/// The MMS version this library proposes and accepts.
pub const VERSION: i64 = 1;

/// The largest PDU this library proposes: what COTP carries in one TPKT
/// frame.
pub const MAX_PDU: i64 = 65_000;

/// The data access error an IED answers for a variable it does not have.
pub const OBJECT_NON_EXISTENT: i64 = 10;

/// `[8]`, constructed.
pub const INITIATE_REQUEST: u8 = 0xa8;

/// `[9]`, constructed.
pub const INITIATE_RESPONSE: u8 = 0xa9;

/// `[0]`, constructed.
pub const CONFIRMED_REQUEST: u8 = 0xa0;

/// `[1]`, constructed.
pub const CONFIRMED_RESPONSE: u8 = 0xa1;

/// `[11]`, primitive.
pub const CONCLUDE_REQUEST: u8 = 0x8b;

/// `[12]`, primitive.
pub const CONCLUDE_RESPONSE: u8 = 0x8c;

/// `[4]`, constructed.
pub const READ: u8 = 0xa4;

/// `[5]`, constructed.
pub const WRITE: u8 = 0xa5;

/// `[9]`, primitive.
pub const OCTET_STRING_DATA: u8 = 0x89;

/// The tags of the PDUs and services are the context-specific tags that
/// ISO 9506-2 gives them.
pub proof fn tags_are_context_specific()
    ensures
        INITIATE_REQUEST == ber::context_tag(8, true),
        INITIATE_RESPONSE == ber::context_tag(9, true),
        CONFIRMED_REQUEST == ber::context_tag(0, true),
        CONFIRMED_RESPONSE == ber::context_tag(1, true),
        CONCLUDE_REQUEST == ber::context_tag(11, false),
        CONCLUDE_RESPONSE == ber::context_tag(12, false),
        READ == ber::context_tag(4, true),
        WRITE == ber::context_tag(5, true),
        OCTET_STRING_DATA == ber::context_tag(9, false),
{
}

/// One PDU.
#[derive(Clone, Debug, PartialEq, Eq)]
pub enum Pdu {
    Initiate,
    InitiateOk,
    Write { invoke: u32, domain: String, item: String, data: Vec<u8> },
    WriteOk { invoke: u32 },
    WriteFailed { invoke: u32, error: i64 },
    Read { invoke: u32, domain: String, item: String },
    ReadOk { invoke: u32, data: Vec<u8> },
    ReadFailed { invoke: u32, error: i64 },
    Conclude,
    ConcludeOk,
}

/// What a PDU says: its names as characters, its data as octets.
#[verifier::ext_equal]
pub enum PduView {
    Initiate,
    InitiateOk,
    Write { invoke: u32, domain: Seq<char>, item: Seq<char>, data: Seq<u8> },
    WriteOk { invoke: u32 },
    WriteFailed { invoke: u32, error: i64 },
    Read { invoke: u32, domain: Seq<char>, item: Seq<char> },
    ReadOk { invoke: u32, data: Seq<u8> },
    ReadFailed { invoke: u32, error: i64 },
    Conclude,
    ConcludeOk,
}

impl View for Pdu {
    type V = PduView;

    open spec fn view(&self) -> PduView {
        match *self {
            Pdu::Initiate => PduView::Initiate,
            Pdu::InitiateOk => PduView::InitiateOk,
            Pdu::Write { invoke, domain, item, data } => PduView::Write {
                invoke,
                domain: domain@,
                item: item@,
                data: data@,
            },
            Pdu::WriteOk { invoke } => PduView::WriteOk { invoke },
            Pdu::WriteFailed { invoke, error } => PduView::WriteFailed { invoke, error },
            Pdu::Read { invoke, domain, item } => PduView::Read {
                invoke,
                domain: domain@,
                item: item@,
            },
            Pdu::ReadOk { invoke, data } => PduView::ReadOk { invoke, data: data@ },
            Pdu::ReadFailed { invoke, error } => PduView::ReadFailed { invoke, error },
            Pdu::Conclude => PduView::Conclude,
            Pdu::ConcludeOk => PduView::ConcludeOk,
        }
    }
}

impl PduView {
    /// The invoke identifier that a confirmed PDU carries.
    pub open spec fn invoke(self) -> Option<u32> {
        match self {
            PduView::Write { invoke, .. } => Some(invoke),
            PduView::WriteOk { invoke } => Some(invoke),
            PduView::WriteFailed { invoke, .. } => Some(invoke),
            PduView::Read { invoke, .. } => Some(invoke),
            PduView::ReadOk { invoke, .. } => Some(invoke),
            PduView::ReadFailed { invoke, .. } => Some(invoke),
            _ => None,
        }
    }
}

/// A decoded PDU as what it says.
pub open spec fn decoded_view(decoded: Result<Pdu, ProtocolError>) -> Result<
    PduView,
    ProtocolError,
> {
    match decoded {
        Ok(pdu) => Ok(pdu@),
        Err(error) => Err(error),
    }
}

/// An INTEGER's element under `tag`.
pub open spec fn integer_element(tag: u8, value: int) -> Seq<u8> {
    ber::element_octets(tag, octets::integer_octets(value))
}

/// What both sides propose under `[4]`: version 1, no parameter CBB, no
/// services listed. Each of the two bit strings says how many bits of its
/// last octet are unused, and has no bit set.
pub open spec fn proposal_elements() -> Seq<(u8, Seq<u8>)> {
    seq![
        (ber::context_tag(0, false), octets::integer_octets(VERSION as int)),
        (ber::context_tag(1, false), seq![0x05u8, 0x00, 0x00]),
        (ber::context_tag(2, false), seq![0x03u8, 0x00, 0x00, 0x00, 0x00, 0x00, 0x00]),
    ]
}

/// The initiate detail both sides state: the largest PDU, one outstanding
/// service each way, no nesting, and the proposal.
pub open spec fn initiate_elements() -> Seq<(u8, Seq<u8>)> {
    seq![
        (ber::context_tag(0, false), octets::integer_octets(MAX_PDU as int)),
        (ber::context_tag(1, false), octets::integer_octets(1)),
        (ber::context_tag(2, false), octets::integer_octets(1)),
        (ber::context_tag(3, false), octets::integer_octets(0)),
        (ber::context_tag(4, true), ber::elements_octets(proposal_elements())),
    ]
}

/// The contents of an initiate.
pub open spec fn initiate_contents() -> Seq<u8> {
    ber::elements_octets(initiate_elements())
}

/// Whether `elements` hold an INTEGER under `tag`.
pub open spec fn holds_integer(elements: Seq<(u8, Seq<u8>)>, tag: u8) -> bool {
    match ber::first_tagged(elements, tag) {
        Ok(contents) => ber::integer_value(contents) is Ok,
        Err(_) => false,
    }
}

/// Whether `contents` are those of a BIT STRING: how many bits of the last
/// octet are unused, then the octets.
pub open spec fn bit_string_shape(contents: Seq<u8>) -> bool {
    contents.len() > 0 && contents[0] <= 7 && (contents.len() == 1 ==> contents[0] == 0)
}

/// Whether `elements` hold a BIT STRING under `tag`.
pub open spec fn holds_bit_string(elements: Seq<(u8, Seq<u8>)>, tag: u8) -> bool {
    match ber::first_tagged(elements, tag) {
        Ok(contents) => bit_string_shape(contents),
        Err(_) => false,
    }
}

/// Whether what stands under `[4]` of an initiate is as ISO 9506-2 lays it
/// out: the version that this library accepts, the parameter CBB and the
/// services.
pub open spec fn proposal_shape(contents: Seq<u8>) -> bool {
    match ber::all_elements(contents) {
        Err(_) => false,
        Ok(elements) => {
            &&& match ber::first_tagged(elements, ber::context_tag(0, false)) {
                Ok(version) => ber::integer_value(version) == Ok::<int, ProtocolError>(
                    VERSION as int,
                ),
                Err(_) => false,
            }
            &&& holds_bit_string(elements, ber::context_tag(1, false))
            &&& holds_bit_string(elements, ber::context_tag(2, false))
        },
    }
}

/// Whether the contents of an initiate are as ISO 9506-2 lays them out: how
/// many services are outstanding each way, and what is proposed. The largest
/// PDU and the nesting may be left out.
pub open spec fn initiate_shape(contents: Seq<u8>) -> bool {
    match ber::all_elements(contents) {
        Err(_) => false,
        Ok(elements) => {
            &&& holds_integer(elements, ber::context_tag(1, false))
            &&& holds_integer(elements, ber::context_tag(2, false))
            &&& match ber::first_tagged(elements, ber::context_tag(4, true)) {
                Ok(proposal) => proposal_shape(proposal),
                Err(_) => false,
            }
        },
    }
}

/// Two identifiers one after another.
pub open spec fn name_octets(domain: Seq<char>, item: Seq<char>) -> Seq<u8> {
    ber::element_octets(ber::VISIBLE_STRING, utf8::encode_utf8(domain)) + ber::element_octets(
        ber::VISIBLE_STRING,
        utf8::encode_utf8(item),
    )
}

/// `listOfVariable [0]` of one domain-specific name.
pub open spec fn variables_octets(domain: Seq<char>, item: Seq<char>) -> Seq<u8> {
    let object_name = ber::element_octets(
        ber::context_tag(0, true),
        ber::element_octets(ber::context_tag(1, true), name_octets(domain, item)),
    );
    ber::element_octets(
        ber::context_tag(0, true),
        ber::element_octets(ber::SEQUENCE, object_name),
    )
}

/// The contents of a confirmed PDU: the invoke identifier, the service.
pub open spec fn confirmed_contents(invoke: u32, service: u8, body: Seq<u8>) -> Seq<u8> {
    integer_element(ber::INTEGER, invoke as int) + ber::element_octets(service, body)
}

/// The tag of a PDU.
pub open spec fn pdu_tag(pdu: PduView) -> u8 {
    match pdu {
        PduView::Initiate => INITIATE_REQUEST,
        PduView::InitiateOk => INITIATE_RESPONSE,
        PduView::Write { .. } | PduView::Read { .. } => CONFIRMED_REQUEST,
        PduView::Conclude => CONCLUDE_REQUEST,
        PduView::ConcludeOk => CONCLUDE_RESPONSE,
        _ => CONFIRMED_RESPONSE,
    }
}

/// The body of a confirmed PDU.
pub open spec fn service_body(pdu: PduView) -> Seq<u8> {
    match pdu {
        PduView::Write { domain, item, data, .. } => variables_octets(domain, item)
            + ber::element_octets(
            ber::context_tag(0, true),
            ber::element_octets(OCTET_STRING_DATA, data),
        ),
        PduView::WriteOk { .. } => ber::element_octets(ber::context_tag(1, false), Seq::empty()),
        PduView::WriteFailed { error, .. } => integer_element(
            ber::context_tag(0, false),
            error as int,
        ),
        PduView::Read { domain, item, .. } => ber::element_octets(
            ber::context_tag(1, true),
            variables_octets(domain, item),
        ),
        PduView::ReadOk { data, .. } => ber::element_octets(
            ber::context_tag(1, true),
            ber::element_octets(OCTET_STRING_DATA, data),
        ),
        PduView::ReadFailed { error, .. } => ber::element_octets(
            ber::context_tag(1, true),
            integer_element(ber::context_tag(0, false), error as int),
        ),
        _ => Seq::empty(),
    }
}

/// The service that a confirmed PDU is about.
pub open spec fn pdu_service(pdu: PduView) -> u8 {
    match pdu {
        PduView::Write { .. } | PduView::WriteOk { .. } | PduView::WriteFailed { .. } => WRITE,
        _ => READ,
    }
}

/// The contents of a PDU.
pub open spec fn pdu_contents(pdu: PduView) -> Seq<u8> {
    match pdu {
        PduView::Initiate | PduView::InitiateOk => initiate_contents(),
        PduView::Conclude | PduView::ConcludeOk => Seq::empty(),
        _ => confirmed_contents(pdu.invoke()->Some_0, pdu_service(pdu), service_body(pdu)),
    }
}

/// A PDU as bytes.
pub open spec fn pdu_octets(pdu: PduView) -> Seq<u8> {
    ber::element_octets(pdu_tag(pdu), pdu_contents(pdu))
}

/// The invoke identifier, the service and its body that the contents of a
/// confirmed PDU carry.
pub open spec fn confirmed_parts(contents: Seq<u8>) -> Result<(u32, u8, Seq<u8>), ProtocolError> {
    match ber::first_element(contents) {
        Err(error) => Err(error),
        Ok((tag, identifier, rest)) => if tag != ber::INTEGER {
            Err(ProtocolError::NoInvoke)
        } else {
            match ber::integer_value(identifier) {
                Err(error) => Err(error),
                Ok(value) => if !(0 <= value <= u32::MAX) {
                    Err(ProtocolError::InvokeRange)
                } else {
                    match ber::first_element(rest) {
                        Err(error) => Err(error),
                        Ok((service, body, after)) => if after.len() != 0 {
                            Err(ProtocolError::BytesAfterService)
                        } else {
                            Ok((value as u32, service, body))
                        },
                    }
                },
            }
        },
    }
}

/// The contents of the one element of `octets`, which is tagged `tag`.
pub open spec fn only_element(octets: Seq<u8>, tag: u8) -> Result<Seq<u8>, ProtocolError> {
    match ber::first_element(octets) {
        Err(error) => Err(error),
        Ok((found, contents, rest)) => if found != tag {
            Err(ProtocolError::Misplaced(found))
        } else if rest.len() != 0 {
            Err(ProtocolError::BytesAfterElement)
        } else {
            Ok(contents)
        },
    }
}

/// The domain and item of two identifiers.
pub open spec fn name_of_parts(parts: Seq<(u8, Seq<u8>)>) -> Result<
    (Seq<char>, Seq<char>),
    ProtocolError,
> {
    if parts.len() == 2 && parts[0].0 == ber::VISIBLE_STRING && parts[1].0 == ber::VISIBLE_STRING {
        Ok((text::text_of(parts[0].1), text::text_of(parts[1].1)))
    } else {
        Err(ProtocolError::NotTwoIdentifiers)
    }
}

/// The domain and item of an object name.
pub open spec fn object_name_of(object_name: Seq<u8>) -> Result<
    (Seq<char>, Seq<char>),
    ProtocolError,
> {
    match ber::first_element(object_name) {
        Err(error) => Err(error),
        Ok((tag, domain_specific, rest)) => if tag != ber::context_tag(1, true) {
            Err(ProtocolError::NotDomainSpecific)
        } else if rest.len() != 0 {
            Err(ProtocolError::BytesAfterElement)
        } else {
            match ber::all_elements(domain_specific) {
                Err(error) => Err(error),
                Ok(parts) => name_of_parts(parts),
            }
        },
    }
}

/// The domain and item of one variable's SEQUENCE: a name `[0]`, and after it
/// nothing but an `alternateAccess [5]`, which is passed over.
pub open spec fn name_in_sequence(sequence: Seq<u8>) -> Result<
    (Seq<char>, Seq<char>),
    ProtocolError,
> {
    match ber::first_element(sequence) {
        Err(error) => Err(error),
        Ok((tag, object_name, rest)) => if tag != ber::context_tag(0, true) {
            Err(ProtocolError::Misplaced(tag))
        } else if rest.len() == 0 {
            object_name_of(object_name)
        } else {
            match only_element(rest, ber::context_tag(5, true)) {
                Err(error) => Err(error),
                Ok(_) => object_name_of(object_name),
            }
        },
    }
}

/// The domain and item of the contents of a `listOfVariable [0]`: one
/// SEQUENCE that holds one name.
pub open spec fn name_in_list(list: Seq<u8>) -> Result<(Seq<char>, Seq<char>), ProtocolError> {
    match only_element(list, ber::SEQUENCE) {
        Err(error) => Err(error),
        Ok(sequence) => name_in_sequence(sequence),
    }
}

/// The one octet string of a `listOfData [0]`.
pub open spec fn octet_string_in(list: Seq<u8>) -> Result<Seq<u8>, ProtocolError> {
    match ber::first_element(list) {
        Err(error) => Err(error),
        Ok((tag, data, rest)) => if tag != OCTET_STRING_DATA {
            Err(ProtocolError::NotOctetString)
        } else if rest.len() != 0 {
            Err(ProtocolError::BytesAfterElement)
        } else {
            Ok(data)
        },
    }
}

/// The write request that `body` carries: a `listOfVariable [0]`, then a
/// `listOfData [0]`.
pub open spec fn write_request(invoke: u32, body: Seq<u8>) -> Result<PduView, ProtocolError> {
    match ber::first_element(body) {
        Err(error) => Err(error),
        Ok((tag, list_of_variable, rest)) => if tag != ber::context_tag(0, true) {
            Err(ProtocolError::Misplaced(tag))
        } else {
            match only_element(rest, ber::context_tag(0, true)) {
                Err(error) => Err(error),
                Ok(list_of_data) => match name_in_list(list_of_variable) {
                    Err(error) => Err(error),
                    Ok((domain, item)) => match octet_string_in(list_of_data) {
                        Err(error) => Err(error),
                        Ok(data) => Ok(PduView::Write { invoke, domain, item, data }),
                    },
                },
            }
        },
    }
}

/// Whether the elements of a read request are as ISO 9506-2 lays them out:
/// the variable's specification `[1]`, and nothing else but a BOOLEAN `[0]`
/// before it.
pub open spec fn read_shape(elements: Seq<(u8, Seq<u8>)>) -> bool {
    ||| elements.len() == 1 && elements[0].0 == ber::context_tag(1, true)
    ||| elements.len() == 2 && elements[0].0 == ber::context_tag(0, false)
        && elements[0].1.len() == 1 && elements[1].0 == ber::context_tag(1, true)
}

/// The read request that `body` carries.
pub open spec fn read_request(invoke: u32, body: Seq<u8>) -> Result<PduView, ProtocolError> {
    match ber::all_elements(body) {
        Err(error) => Err(error),
        Ok(elements) => match ber::first_tagged(elements, ber::context_tag(1, true)) {
            Err(error) => Err(error),
            Ok(specification) => if !read_shape(elements) {
                Err(ProtocolError::ReadShape)
            } else {
                match only_element(specification, ber::context_tag(0, true)) {
                    Err(error) => Err(error),
                    Ok(list_of_variable) => match name_in_list(list_of_variable) {
                        Err(error) => Err(error),
                        Ok((domain, item)) => Ok(PduView::Read { invoke, domain, item }),
                    },
                }
            },
        },
    }
}

/// The answer to a write that `body` carries: success, which is empty, under
/// `[1]` or NULL, or a data access error under `[0]`.
pub open spec fn write_result(invoke: u32, body: Seq<u8>) -> Result<PduView, ProtocolError> {
    match ber::first_element(body) {
        Err(error) => Err(error),
        Ok((tag, contents, rest)) => if tag == ber::context_tag(1, false) || tag == ber::NULL {
            if contents.len() != 0 {
                Err(ProtocolError::NullContents)
            } else if rest.len() != 0 {
                Err(ProtocolError::BytesAfterElement)
            } else {
                Ok(PduView::WriteOk { invoke })
            }
        } else if tag == ber::context_tag(0, false) {
            match ber::integer_value(contents) {
                Err(error) => Err(error),
                Ok(value) => if rest.len() != 0 {
                    Err(ProtocolError::BytesAfterElement)
                } else {
                    Ok(PduView::WriteFailed { invoke, error: value as i64 })
                },
            }
        } else {
            Err(ProtocolError::NoWriteResult)
        },
    }
}

/// The answer to a read that `body` carries, in a list `[1]` of one: the
/// octet string, or a data access error under `[0]`.
pub open spec fn read_result(invoke: u32, body: Seq<u8>) -> Result<PduView, ProtocolError> {
    match only_element(body, ber::context_tag(1, true)) {
        Err(error) => Err(error),
        Ok(results) => match ber::first_element(results) {
            Err(error) => Err(error),
            Ok((tag, contents, rest)) => if tag == OCTET_STRING_DATA {
                if rest.len() != 0 {
                    Err(ProtocolError::BytesAfterElement)
                } else {
                    Ok(PduView::ReadOk { invoke, data: contents })
                }
            } else if tag == ber::context_tag(0, false) {
                match ber::integer_value(contents) {
                    Err(error) => Err(error),
                    Ok(value) => if rest.len() != 0 {
                        Err(ProtocolError::BytesAfterElement)
                    } else {
                        Ok(PduView::ReadFailed { invoke, error: value as i64 })
                    },
                }
            } else {
                Err(ProtocolError::NoAccessResult)
            },
        },
    }
}

/// The confirmed PDU under `tag` with these contents. What this comes to is
/// revealed only where such a PDU is taken apart.
#[verifier::opaque]
pub open spec fn confirmed_pdu(tag: u8, contents: Seq<u8>) -> Result<PduView, ProtocolError> {
    match confirmed_parts(contents) {
        Err(error) => Err(error),
        Ok((invoke, service, body)) => if service == WRITE {
            if tag == CONFIRMED_REQUEST {
                write_request(invoke, body)
            } else {
                write_result(invoke, body)
            }
        } else if service == READ {
            if tag == CONFIRMED_REQUEST {
                read_request(invoke, body)
            } else {
                read_result(invoke, body)
            }
        } else {
            Err(ProtocolError::UnknownService(service))
        },
    }
}

/// The PDU that `octets` carry.
pub open spec fn pdu_of(octets: Seq<u8>) -> Result<PduView, ProtocolError> {
    match ber::first_element(octets) {
        Err(error) => Err(error),
        Ok((tag, contents, rest)) => if rest.len() != 0 {
            Err(ProtocolError::BytesAfterPdu)
        } else if tag == INITIATE_REQUEST || tag == INITIATE_RESPONSE {
            if !initiate_shape(contents) {
                Err(ProtocolError::InitiateShape)
            } else if tag == INITIATE_REQUEST {
                Ok(PduView::Initiate)
            } else {
                Ok(PduView::InitiateOk)
            }
        } else if tag == CONCLUDE_REQUEST || tag == CONCLUDE_RESPONSE {
            if contents.len() != 0 {
                Err(ProtocolError::NullContents)
            } else if tag == CONCLUDE_REQUEST {
                Ok(PduView::Conclude)
            } else {
                Ok(PduView::ConcludeOk)
            }
        } else if tag == CONFIRMED_REQUEST || tag == CONFIRMED_RESPONSE {
            confirmed_pdu(tag, contents)
        } else {
            Err(ProtocolError::UnknownPdu(tag))
        },
    }
}

impl Pdu {
    /// The PDU as bytes.
    pub fn encode(&self) -> (bytes: Vec<u8>)
        ensures
            bytes@ == pdu_octets(self@),
    {
        match self {
            Pdu::Initiate => {
                let detail = initiate_detail();
                ber::tlv(INITIATE_REQUEST, detail.as_slice())
            },
            Pdu::InitiateOk => {
                let detail = initiate_detail();
                ber::tlv(INITIATE_RESPONSE, detail.as_slice())
            },
            Pdu::Write { invoke, domain, item, data } => {
                let datum = ber::tlv(OCTET_STRING_DATA, data.as_slice());
                let list_of_data = ber::tlv(ber::context(0, true), datum.as_slice());
                let mut body = variables(domain.as_str(), item.as_str());
                body.extend_from_slice(list_of_data.as_slice());
                confirmed(CONFIRMED_REQUEST, *invoke, WRITE, body.as_slice())
            },
            Pdu::WriteOk { invoke } => {
                let nothing: Vec<u8> = Vec::new();
                let success = ber::tlv(ber::context(1, false), nothing.as_slice());
                confirmed(CONFIRMED_RESPONSE, *invoke, WRITE, success.as_slice())
            },
            Pdu::WriteFailed { invoke, error } => {
                let failure = integer_field(ber::context(0, false), *error);
                confirmed(CONFIRMED_RESPONSE, *invoke, WRITE, failure.as_slice())
            },
            Pdu::Read { invoke, domain, item } => {
                let list_of_variable = variables(domain.as_str(), item.as_str());
                let specification = ber::tlv(ber::context(1, true), list_of_variable.as_slice());
                confirmed(CONFIRMED_REQUEST, *invoke, READ, specification.as_slice())
            },
            Pdu::ReadOk { invoke, data } => {
                let datum = ber::tlv(OCTET_STRING_DATA, data.as_slice());
                let results = ber::tlv(ber::context(1, true), datum.as_slice());
                confirmed(CONFIRMED_RESPONSE, *invoke, READ, results.as_slice())
            },
            Pdu::ReadFailed { invoke, error } => {
                let failure = integer_field(ber::context(0, false), *error);
                let results = ber::tlv(ber::context(1, true), failure.as_slice());
                confirmed(CONFIRMED_RESPONSE, *invoke, READ, results.as_slice())
            },
            Pdu::Conclude => {
                let nothing: Vec<u8> = Vec::new();
                ber::tlv(CONCLUDE_REQUEST, nothing.as_slice())
            },
            Pdu::ConcludeOk => {
                let nothing: Vec<u8> = Vec::new();
                ber::tlv(CONCLUDE_RESPONSE, nothing.as_slice())
            },
        }
    }

    /// The PDU `bytes` carry. What is not one of the PDUs this library
    /// speaks, and one whose shape is not as ISO 9506-2 lays it out, is an
    /// error.
    pub fn decode(bytes: &[u8]) -> (pdu: Result<Pdu, ProtocolError>)
        ensures
            decoded_view(pdu) == pdu_of(bytes@),
    {
        let (tag, contents, rest) = match ber::read(bytes) {
            Ok(element) => element,
            Err(e) => return Err(e),
        };
        if !rest.is_empty() {
            return Err(ProtocolError::BytesAfterPdu);
        }
        if tag == INITIATE_REQUEST || tag == INITIATE_RESPONSE {
            if !is_initiate(contents) {
                Err(ProtocolError::InitiateShape)
            } else if tag == INITIATE_REQUEST {
                Ok(Pdu::Initiate)
            } else {
                Ok(Pdu::InitiateOk)
            }
        } else if tag == CONCLUDE_REQUEST || tag == CONCLUDE_RESPONSE {
            if !contents.is_empty() {
                Err(ProtocolError::NullContents)
            } else if tag == CONCLUDE_REQUEST {
                Ok(Pdu::Conclude)
            } else {
                Ok(Pdu::ConcludeOk)
            }
        } else if tag == CONFIRMED_REQUEST || tag == CONFIRMED_RESPONSE {
            proof {
                reveal(confirmed_pdu);
            }
            let (invoke, service, body) = match split_confirmed(contents) {
                Ok(parts) => parts,
                Err(e) => return Err(e),
            };
            let request: bool = tag == CONFIRMED_REQUEST;
            if service == WRITE && request {
                decode_write(invoke, body)
            } else if service == WRITE {
                decode_write_result(invoke, body)
            } else if service == READ && request {
                decode_read(invoke, body)
            } else if service == READ {
                decode_read_result(invoke, body)
            } else {
                Err(ProtocolError::UnknownService(service))
            }
        } else {
            Err(ProtocolError::UnknownPdu(tag))
        }
    }

    /// The invoke identifier a confirmed PDU carries, or `None`.
    pub fn invoke(&self) -> (invoke: Option<u32>)
        ensures
            invoke == self@.invoke(),
    {
        match self {
            Pdu::Write { invoke, .. } => Some(*invoke),
            Pdu::WriteOk { invoke } => Some(*invoke),
            Pdu::WriteFailed { invoke, .. } => Some(*invoke),
            Pdu::Read { invoke, .. } => Some(*invoke),
            Pdu::ReadOk { invoke, .. } => Some(*invoke),
            Pdu::ReadFailed { invoke, .. } => Some(*invoke),
            _ => None,
        }
    }
}

/// The element of `value` under `tag`.
fn integer_field(tag: u8, value: i64) -> (field: Vec<u8>)
    ensures
        field@ == integer_element(tag, value as int),
{
    let contents = ber::integer(value);
    ber::tlv(tag, contents.as_slice())
}

/// What both sides propose.
fn proposal() -> (proposal: Vec<u8>)
    ensures
        proposal@ == ber::elements_octets(proposal_elements()),
{
    let mut proposal = integer_field(ber::context(0, false), VERSION);
    let cbb: Vec<u8> = vec![0x05, 0x00, 0x00];
    let parameters = ber::tlv(ber::context(1, false), cbb.as_slice());
    proposal.extend_from_slice(parameters.as_slice());
    let none: Vec<u8> = vec![0x03, 0x00, 0x00, 0x00, 0x00, 0x00, 0x00];
    let services = ber::tlv(ber::context(2, false), none.as_slice());
    proposal.extend_from_slice(services.as_slice());
    proof {
        let elements = proposal_elements();
        assert(cbb@ =~= elements[1].1);
        assert(none@ =~= elements[2].1);
        assert(elements.take(0) =~= Seq::empty());
        ber::lemma_elements_octets_step(elements, 0);
        ber::lemma_elements_octets_step(elements, 1);
        ber::lemma_elements_octets_step(elements, 2);
        assert(elements.take(3) =~= elements);
        assert(proposal@ =~= ber::elements_octets(elements));
    }
    proposal
}

/// The initiate detail both sides state.
fn initiate_detail() -> (detail: Vec<u8>)
    ensures
        detail@ == initiate_contents(),
{
    let mut detail = integer_field(ber::context(0, false), MAX_PDU);
    let calling = integer_field(ber::context(1, false), 1);
    detail.extend_from_slice(calling.as_slice());
    let called = integer_field(ber::context(2, false), 1);
    detail.extend_from_slice(called.as_slice());
    let nesting = integer_field(ber::context(3, false), 0);
    detail.extend_from_slice(nesting.as_slice());
    let inner = proposal();
    let proposed = ber::tlv(ber::context(4, true), inner.as_slice());
    detail.extend_from_slice(proposed.as_slice());
    proof {
        let elements = initiate_elements();
        assert(elements.take(0) =~= Seq::empty());
        ber::lemma_elements_octets_step(elements, 0);
        ber::lemma_elements_octets_step(elements, 1);
        ber::lemma_elements_octets_step(elements, 2);
        ber::lemma_elements_octets_step(elements, 3);
        ber::lemma_elements_octets_step(elements, 4);
        assert(elements.take(5) =~= elements);
        assert(detail@ =~= ber::elements_octets(elements));
    }
    detail
}

/// Whether `elements` hold an INTEGER under `tag`.
fn has_integer(elements: &[(u8, &[u8])], tag: u8) -> (held: bool)
    ensures
        held == holds_integer(ber::elements_view(elements@), tag),
{
    match ber::find(elements, tag) {
        Ok(contents) => match ber::read_integer(contents) {
            Ok(_) => true,
            Err(_) => false,
        },
        Err(_) => false,
    }
}

/// Whether `elements` hold a BIT STRING under `tag`.
fn has_bit_string(elements: &[(u8, &[u8])], tag: u8) -> (held: bool)
    ensures
        held == holds_bit_string(ber::elements_view(elements@), tag),
{
    match ber::find(elements, tag) {
        Ok(contents) => contents.len() > 0 && contents[0] <= 7 && (contents.len() > 1
            || contents[0] == 0),
        Err(_) => false,
    }
}

/// Whether `contents` propose what this library accepts.
fn is_proposal(contents: &[u8]) -> (shaped: bool)
    ensures
        shaped == proposal_shape(contents@),
{
    let elements = match ber::read_all(contents) {
        Ok(found) => found,
        Err(_) => return false,
    };
    let version: i64 = match ber::find(elements.as_slice(), ber::context(0, false)) {
        Ok(found) => match ber::read_integer(found) {
            Ok(value) => value,
            Err(_) => return false,
        },
        Err(_) => return false,
    };
    version == VERSION && has_bit_string(elements.as_slice(), ber::context(1, false))
        && has_bit_string(elements.as_slice(), ber::context(2, false))
}

/// Whether `contents` are those of an initiate.
fn is_initiate(contents: &[u8]) -> (shaped: bool)
    ensures
        shaped == initiate_shape(contents@),
{
    let elements = match ber::read_all(contents) {
        Ok(found) => found,
        Err(_) => return false,
    };
    let proposed = match ber::find(elements.as_slice(), ber::context(4, true)) {
        Ok(found) => found,
        Err(_) => return false,
    };
    has_integer(elements.as_slice(), ber::context(1, false)) && has_integer(
        elements.as_slice(),
        ber::context(2, false),
    ) && is_proposal(proposed)
}

/// A confirmed PDU of `service`.
fn confirmed(tag: u8, invoke: u32, service: u8, body: &[u8]) -> (bytes: Vec<u8>)
    ensures
        bytes@ == ber::element_octets(tag, confirmed_contents(invoke, service, body@)),
{
    let mut contents = integer_field(ber::INTEGER, invoke as i64);
    let served = ber::tlv(service, body);
    contents.extend_from_slice(served.as_slice());
    ber::tlv(tag, contents.as_slice())
}

/// `listOfVariable [0]` of one domain-specific name.
fn variables(domain: &str, item: &str) -> (list: Vec<u8>)
    ensures
        list@ == variables_octets(domain@, item@),
{
    let mut name = ber::tlv(ber::VISIBLE_STRING, domain.as_bytes());
    let second = ber::tlv(ber::VISIBLE_STRING, item.as_bytes());
    name.extend_from_slice(second.as_slice());
    let domain_specific = ber::tlv(ber::context(1, true), name.as_slice());
    let object_name = ber::tlv(ber::context(0, true), domain_specific.as_slice());
    let sequence = ber::tlv(ber::SEQUENCE, object_name.as_slice());
    ber::tlv(ber::context(0, true), sequence.as_slice())
}

/// The contents of the one element of `bytes`, which is tagged `tag`.
fn only(bytes: &[u8], tag: u8) -> (contents: Result<&[u8], ProtocolError>)
    ensures
        match contents {
            Ok(found) => only_element(bytes@, tag) == Ok::<Seq<u8>, ProtocolError>(found@),
            Err(e) => only_element(bytes@, tag) == Err::<Seq<u8>, ProtocolError>(e),
        },
{
    let (found, contents, rest) = match ber::read(bytes) {
        Ok(element) => element,
        Err(e) => return Err(e),
    };
    if found != tag {
        return Err(ProtocolError::Misplaced(found));
    }
    if !rest.is_empty() {
        return Err(ProtocolError::BytesAfterElement);
    }
    Ok(contents)
}

/// The invoke identifier, the service and its body.
fn split_confirmed(contents: &[u8]) -> (parts: Result<(u32, u8, &[u8]), ProtocolError>)
    ensures
        match parts {
            Ok((invoke, service, body)) => confirmed_parts(contents@) == Ok::<
                (u32, u8, Seq<u8>),
                ProtocolError,
            >((invoke, service, body@)),
            Err(e) => confirmed_parts(contents@) == Err::<(u32, u8, Seq<u8>), ProtocolError>(e),
        },
{
    let (tag, identifier, rest) = match ber::read(contents) {
        Ok(element) => element,
        Err(e) => return Err(e),
    };
    if tag != ber::INTEGER {
        return Err(ProtocolError::NoInvoke);
    }
    let value: i64 = match ber::read_integer(identifier) {
        Ok(v) => v,
        Err(e) => return Err(e),
    };
    if value < 0 || value > u32::MAX as i64 {
        return Err(ProtocolError::InvokeRange);
    }
    let (service, body, after) = match ber::read(rest) {
        Ok(element) => element,
        Err(e) => return Err(e),
    };
    if !after.is_empty() {
        return Err(ProtocolError::BytesAfterService);
    }
    Ok((value as u32, service, body))
}

/// What a pair of names says.
pub open spec fn name_view(name: Result<(String, String), ProtocolError>) -> Result<
    (Seq<char>, Seq<char>),
    ProtocolError,
> {
    match name {
        Ok((domain, item)) => Ok((domain@, item@)),
        Err(error) => Err(error),
    }
}

/// The domain and item of a `listOfVariable [0]`.
fn read_name(list: &[u8]) -> (name: Result<(String, String), ProtocolError>)
    ensures
        name_view(name) == name_in_list(list@),
{
    let sequence = match only(list, ber::SEQUENCE) {
        Ok(contents) => contents,
        Err(e) => return Err(e),
    };
    let (form, object_name, access) = match ber::read(sequence) {
        Ok(element) => element,
        Err(e) => return Err(e),
    };
    if form != ber::context(0, true) {
        return Err(ProtocolError::Misplaced(form));
    }
    if !access.is_empty() {
        match only(access, ber::context(5, true)) {
            Ok(_) => {},
            Err(e) => return Err(e),
        }
    }
    let (tag, domain_specific, rest) = match ber::read(object_name) {
        Ok(element) => element,
        Err(e) => return Err(e),
    };
    if tag != ber::context(1, true) {
        return Err(ProtocolError::NotDomainSpecific);
    }
    if !rest.is_empty() {
        return Err(ProtocolError::BytesAfterElement);
    }
    let parts = match ber::read_all(domain_specific) {
        Ok(elements) => elements,
        Err(e) => return Err(e),
    };
    if parts.len() == 2 && parts[0].0 == ber::VISIBLE_STRING && parts[1].0 == ber::VISIBLE_STRING {
        Ok((text::lossy_text(parts[0].1), text::lossy_text(parts[1].1)))
    } else {
        Err(ProtocolError::NotTwoIdentifiers)
    }
}

/// The one octet string of a list of data.
fn read_octet_string(list: &[u8]) -> (data: Result<Vec<u8>, ProtocolError>)
    ensures
        match data {
            Ok(found) => octet_string_in(list@) == Ok::<Seq<u8>, ProtocolError>(found@),
            Err(e) => octet_string_in(list@) == Err::<Seq<u8>, ProtocolError>(e),
        },
{
    let (tag, data, rest) = match ber::read(list) {
        Ok(element) => element,
        Err(e) => return Err(e),
    };
    if tag != OCTET_STRING_DATA {
        return Err(ProtocolError::NotOctetString);
    }
    if !rest.is_empty() {
        return Err(ProtocolError::BytesAfterElement);
    }
    Ok(slice_to_vec(data))
}

fn decode_write(invoke: u32, body: &[u8]) -> (pdu: Result<Pdu, ProtocolError>)
    ensures
        decoded_view(pdu) == write_request(invoke, body@),
{
    let (tag, list_of_variable, rest) = match ber::read(body) {
        Ok(element) => element,
        Err(e) => return Err(e),
    };
    if tag != ber::context(0, true) {
        return Err(ProtocolError::Misplaced(tag));
    }
    let list_of_data = match only(rest, ber::context(0, true)) {
        Ok(contents) => contents,
        Err(e) => return Err(e),
    };
    let (domain, item) = match read_name(list_of_variable) {
        Ok(name) => name,
        Err(e) => return Err(e),
    };
    match read_octet_string(list_of_data) {
        Ok(data) => Ok(Pdu::Write { invoke, domain, item, data }),
        Err(e) => Err(e),
    }
}

/// Whether `elements` are those of a read request.
fn is_read(elements: &[(u8, &[u8])]) -> (shaped: bool)
    ensures
        shaped == read_shape(ber::elements_view(elements@)),
{
    let one: bool = elements.len() == 1 && elements[0].0 == ber::context(1, true);
    let two: bool = elements.len() == 2 && elements[0].0 == ber::context(0, false)
        && elements[0].1.len() == 1 && elements[1].0 == ber::context(1, true);
    one || two
}

fn decode_read(invoke: u32, body: &[u8]) -> (pdu: Result<Pdu, ProtocolError>)
    ensures
        decoded_view(pdu) == read_request(invoke, body@),
{
    let elements = match ber::read_all(body) {
        Ok(found) => found,
        Err(e) => return Err(e),
    };
    let specification = match ber::find(elements.as_slice(), ber::context(1, true)) {
        Ok(contents) => contents,
        Err(e) => return Err(e),
    };
    if !is_read(elements.as_slice()) {
        return Err(ProtocolError::ReadShape);
    }
    let list_of_variable = match only(specification, ber::context(0, true)) {
        Ok(contents) => contents,
        Err(e) => return Err(e),
    };
    match read_name(list_of_variable) {
        Ok((domain, item)) => Ok(Pdu::Read { invoke, domain, item }),
        Err(e) => Err(e),
    }
}

fn decode_write_result(invoke: u32, body: &[u8]) -> (pdu: Result<Pdu, ProtocolError>)
    ensures
        decoded_view(pdu) == write_result(invoke, body@),
{
    let (tag, contents, rest) = match ber::read(body) {
        Ok(element) => element,
        Err(e) => return Err(e),
    };
    if tag == ber::context(1, false) || tag == ber::NULL {
        if !contents.is_empty() {
            return Err(ProtocolError::NullContents);
        }
        if !rest.is_empty() {
            return Err(ProtocolError::BytesAfterElement);
        }
        Ok(Pdu::WriteOk { invoke })
    } else if tag == ber::context(0, false) {
        match ber::read_integer(contents) {
            Ok(error) => if rest.is_empty() {
                Ok(Pdu::WriteFailed { invoke, error })
            } else {
                Err(ProtocolError::BytesAfterElement)
            },
            Err(e) => Err(e),
        }
    } else {
        Err(ProtocolError::NoWriteResult)
    }
}

fn decode_read_result(invoke: u32, body: &[u8]) -> (pdu: Result<Pdu, ProtocolError>)
    ensures
        decoded_view(pdu) == read_result(invoke, body@),
{
    let results = match only(body, ber::context(1, true)) {
        Ok(contents) => contents,
        Err(e) => return Err(e),
    };
    let (tag, contents, rest) = match ber::read(results) {
        Ok(element) => element,
        Err(e) => return Err(e),
    };
    if tag == OCTET_STRING_DATA {
        if !rest.is_empty() {
            return Err(ProtocolError::BytesAfterElement);
        }
        Ok(Pdu::ReadOk { invoke, data: slice_to_vec(contents) })
    } else if tag == ber::context(0, false) {
        match ber::read_integer(contents) {
            Ok(error) => if rest.is_empty() {
                Ok(Pdu::ReadFailed { invoke, error })
            } else {
                Err(ProtocolError::BytesAfterElement)
            },
            Err(e) => Err(e),
        }
    } else {
        Err(ProtocolError::NoAccessResult)
    }
}

proof fn lemma_confirmed_reads_back(invoke: u32, service: u8, body: Seq<u8>)
    requires
        ber::readable(service, body),
    ensures
        confirmed_parts(confirmed_contents(invoke, service, body)) == Ok::<
            (u32, u8, Seq<u8>),
            ProtocolError,
        >((invoke, service, body)),
{
    let identifier = octets::integer_octets(invoke as int);
    ber::an_integer_reads_back(invoke as i64);
    ber::an_element_reads_back(ber::INTEGER, identifier, ber::element_octets(service, body));
    ber::an_element_alone_reads_back(service, body);
}

proof fn lemma_identifiers_read_back(domain: Seq<char>, item: Seq<char>)
    requires
        name_octets(domain, item).len() <= u32::MAX,
    ensures
        ber::all_elements(name_octets(domain, item)) == Ok::<Seq<(u8, Seq<u8>)>, ProtocolError>(
            seq![
                (ber::VISIBLE_STRING, utf8::encode_utf8(domain)),
                (ber::VISIBLE_STRING, utf8::encode_utf8(item)),
            ],
        ),
{
    let parts = seq![
        (ber::VISIBLE_STRING, utf8::encode_utf8(domain)),
        (ber::VISIBLE_STRING, utf8::encode_utf8(item)),
    ];
    assert(ber::elements_octets(parts) =~= name_octets(domain, item)) by {
        reveal_with_fuel(ber::elements_octets, 3);
    }
    ber::elements_read_back(parts);
}

proof fn lemma_name_reads_back(domain: Seq<char>, item: Seq<char>)
    requires
        name_octets(domain, item).len() <= u32::MAX,
    ensures
        object_name_of(
            ber::element_octets(ber::context_tag(1, true), name_octets(domain, item)),
        ) == Ok::<(Seq<char>, Seq<char>), ProtocolError>((domain, item)),
{
    ber::an_element_alone_reads_back(ber::context_tag(1, true), name_octets(domain, item));
    lemma_identifiers_read_back(domain, item);
    text::text_reads_back(domain);
    text::text_reads_back(item);
}

/// One element with nothing after it is found under its tag.
proof fn lemma_only_element(tag: u8, contents: Seq<u8>)
    requires
        ber::readable(tag, contents),
    ensures
        only_element(ber::element_octets(tag, contents), tag) == Ok::<Seq<u8>, ProtocolError>(
            contents,
        ),
{
    ber::an_element_alone_reads_back(tag, contents);
}

proof fn lemma_variables_read_back(domain: Seq<char>, item: Seq<char>, rest: Seq<u8>)
    requires
        variables_octets(domain, item).len() <= u32::MAX,
    ensures
        ({
            let read = ber::first_element(variables_octets(domain, item) + rest);
            &&& read is Ok
            &&& read->Ok_0.0 == ber::context_tag(0, true)
            &&& read->Ok_0.2 == rest
            &&& name_in_list(read->Ok_0.1) == Ok::<(Seq<char>, Seq<char>), ProtocolError>(
                (domain, item),
            )
        }),
{
    let name = name_octets(domain, item);
    let domain_specific = ber::element_octets(ber::context_tag(1, true), name);
    let object_name = ber::element_octets(ber::context_tag(0, true), domain_specific);
    let sequence = ber::element_octets(ber::SEQUENCE, object_name);
    ber::an_element_reads_back(ber::context_tag(0, true), sequence, rest);
    lemma_only_element(ber::SEQUENCE, object_name);
    ber::an_element_alone_reads_back(ber::context_tag(0, true), domain_specific);
    lemma_name_reads_back(domain, item);
}

/// An alternate access after a variable's name changes nothing of the name.
pub proof fn an_alternate_access_is_passed_over(object_name: Seq<u8>, access: Seq<u8>)
    requires
        object_name.len() <= u32::MAX,
        access.len() <= u32::MAX,
    ensures
        name_in_sequence(
            ber::element_octets(ber::context_tag(0, true), object_name) + ber::element_octets(
                ber::context_tag(5, true),
                access,
            ),
        ) == object_name_of(object_name),
{
    let after = ber::element_octets(ber::context_tag(5, true), access);
    ber::an_element_reads_back(ber::context_tag(0, true), object_name, after);
    lemma_only_element(ber::context_tag(5, true), access);
}

proof fn lemma_write_reads_back(
    invoke: u32,
    domain: Seq<char>,
    item: Seq<char>,
    data: Seq<u8>,
    body: Seq<u8>,
)
    requires
        body == service_body(PduView::Write { invoke, domain, item, data }),
        body.len() <= u32::MAX,
    ensures
        write_request(invoke, body) == Ok::<PduView, ProtocolError>(
            PduView::Write { invoke, domain, item, data },
        ),
{
    let datum = ber::element_octets(OCTET_STRING_DATA, data);
    let list_of_data = ber::element_octets(ber::context_tag(0, true), datum);
    lemma_variables_read_back(domain, item, list_of_data);
    lemma_only_element(ber::context_tag(0, true), datum);
    ber::an_element_alone_reads_back(OCTET_STRING_DATA, data);
}

proof fn lemma_read_reads_back(invoke: u32, domain: Seq<char>, item: Seq<char>, body: Seq<u8>)
    requires
        body == service_body(PduView::Read { invoke, domain, item }),
        body.len() <= u32::MAX,
    ensures
        read_request(invoke, body) == Ok::<PduView, ProtocolError>(
            PduView::Read { invoke, domain, item },
        ),
{
    let list = variables_octets(domain, item);
    let elements = seq![(ber::context_tag(1, true), list)];
    reveal_with_fuel(ber::elements_octets, 2);
    assert(ber::elements_octets(elements) =~= body);
    ber::elements_read_back(elements);
    lemma_variables_read_back(domain, item, Seq::empty());
    assert(list + Seq::empty() =~= list);
}

proof fn lemma_write_result_reads_back(pdu: PduView, body: Seq<u8>)
    requires
        pdu is WriteOk || pdu is WriteFailed,
        body == service_body(pdu),
    ensures
        write_result(pdu.invoke()->Some_0, body) == Ok::<PduView, ProtocolError>(pdu),
{
    match pdu {
        PduView::WriteFailed { error, .. } => {
            ber::an_integer_reads_back(error);
            ber::an_element_alone_reads_back(
                ber::context_tag(0, false),
                octets::integer_octets(error as int),
            );
        },
        _ => {
            ber::an_element_alone_reads_back(ber::context_tag(1, false), Seq::empty());
        },
    }
}

proof fn lemma_read_result_reads_back(pdu: PduView, body: Seq<u8>)
    requires
        pdu is ReadOk || pdu is ReadFailed,
        body == service_body(pdu),
        body.len() <= u32::MAX,
    ensures
        read_result(pdu.invoke()->Some_0, body) == Ok::<PduView, ProtocolError>(pdu),
{
    match pdu {
        PduView::ReadFailed { error, .. } => {
            let contents = octets::integer_octets(error as int);
            let failure = ber::element_octets(ber::context_tag(0, false), contents);
            ber::an_integer_reads_back(error);
            lemma_only_element(ber::context_tag(1, true), failure);
            ber::an_element_alone_reads_back(ber::context_tag(0, false), contents);
        },
        PduView::ReadOk { data, .. } => {
            let datum = ber::element_octets(OCTET_STRING_DATA, data);
            lemma_only_element(ber::context_tag(1, true), datum);
            ber::an_element_alone_reads_back(OCTET_STRING_DATA, data);
        },
        _ => {},
    }
}

proof fn lemma_request_reads_back(pdu: PduView)
    requires
        pdu is Write || pdu is Read,
        pdu_contents(pdu).len() <= u32::MAX,
    ensures
        confirmed_pdu(CONFIRMED_REQUEST, pdu_contents(pdu)) == Ok::<PduView, ProtocolError>(pdu),
{
    reveal(confirmed_pdu);
    let body = service_body(pdu);
    assert(body.len() <= u32::MAX);
    lemma_confirmed_reads_back(pdu.invoke()->Some_0, pdu_service(pdu), body);
    match pdu {
        PduView::Write { invoke, domain, item, data } => {
            lemma_write_reads_back(invoke, domain, item, data, body);
        },
        PduView::Read { invoke, domain, item } => {
            lemma_read_reads_back(invoke, domain, item, body);
        },
        _ => {},
    }
}

proof fn lemma_response_reads_back(pdu: PduView)
    requires
        pdu is WriteOk || pdu is WriteFailed || pdu is ReadOk || pdu is ReadFailed,
        pdu_contents(pdu).len() <= u32::MAX,
    ensures
        confirmed_pdu(CONFIRMED_RESPONSE, pdu_contents(pdu)) == Ok::<PduView, ProtocolError>(pdu),
{
    reveal(confirmed_pdu);
    let body = service_body(pdu);
    assert(body.len() <= u32::MAX);
    lemma_confirmed_reads_back(pdu.invoke()->Some_0, pdu_service(pdu), body);
    if pdu is WriteOk || pdu is WriteFailed {
        lemma_write_result_reads_back(pdu, body);
    } else {
        lemma_read_result_reads_back(pdu, body);
    }
}

proof fn lemma_proposal_is_short()
    ensures
        ber::elements_octets(proposal_elements()).len() <= 32,
        forall|i: int|
            0 <= i < 3 ==> ber::readable(
                (#[trigger] proposal_elements()[i]).0,
                proposal_elements()[i].1,
            ),
{
    octets::lemma_half_range_of_eight();
    octets::lemma_integer_octets_width(VERSION as int, 1);
    reveal_with_fuel(ber::elements_octets, 4);
}

/// What is proposed, as it is read.
proof fn lemma_proposal_parameters()
    ensures
        ber::all_elements(ber::elements_octets(proposal_elements())) == Ok::<
            Seq<(u8, Seq<u8>)>,
            ProtocolError,
        >(proposal_elements()),
        forall|i: int|
            0 <= i < 3 ==> ber::first_tagged(
                proposal_elements(),
                (#[trigger] proposal_elements()[i]).0,
            ) == Ok::<Seq<u8>, ProtocolError>(proposal_elements()[i].1),
{
    lemma_proposal_is_short();
    ber::elements_read_back(proposal_elements());
    ber::the_first_of_its_tag_is_found(proposal_elements(), 0);
    ber::the_first_of_its_tag_is_found(proposal_elements(), 1);
    ber::the_first_of_its_tag_is_found(proposal_elements(), 2);
}

proof fn lemma_initiate_is_short()
    ensures
        initiate_contents().len() <= 60,
        forall|i: int|
            0 <= i < 5 ==> ber::readable(
                (#[trigger] initiate_elements()[i]).0,
                initiate_elements()[i].1,
            ),
{
    octets::lemma_half_range_of_eight();
    octets::lemma_integer_octets_width(MAX_PDU as int, 8);
    octets::lemma_integer_octets_width(1, 1);
    octets::lemma_integer_octets_width(0, 1);
    lemma_proposal_is_short();
    reveal_with_fuel(ber::elements_octets, 6);
}

/// The initiate detail, as it is read.
proof fn lemma_initiate_parameters()
    ensures
        ber::all_elements(initiate_contents()) == Ok::<Seq<(u8, Seq<u8>)>, ProtocolError>(
            initiate_elements(),
        ),
        forall|i: int|
            0 <= i < 5 ==> ber::first_tagged(
                initiate_elements(),
                (#[trigger] initiate_elements()[i]).0,
            ) == Ok::<Seq<u8>, ProtocolError>(initiate_elements()[i].1),
{
    lemma_initiate_is_short();
    ber::elements_read_back(initiate_elements());
    ber::the_first_of_its_tag_is_found(initiate_elements(), 0);
    ber::the_first_of_its_tag_is_found(initiate_elements(), 1);
    ber::the_first_of_its_tag_is_found(initiate_elements(), 2);
    ber::the_first_of_its_tag_is_found(initiate_elements(), 3);
    ber::the_first_of_its_tag_is_found(initiate_elements(), 4);
}

proof fn lemma_proposal_is_shaped()
    ensures
        proposal_shape(ber::elements_octets(proposal_elements())),
{
    let elements = proposal_elements();
    lemma_proposal_parameters();
    ber::an_integer_reads_back(VERSION);
    assert(elements[0].0 == ber::context_tag(0, false));
    assert(elements[1].0 == ber::context_tag(1, false));
    assert(elements[2].0 == ber::context_tag(2, false));
}

/// The detail that both sides state is shaped as a reader asks.
pub proof fn the_initiate_detail_is_shaped()
    ensures
        initiate_shape(initiate_contents()),
{
    let elements = initiate_elements();
    lemma_initiate_parameters();
    lemma_proposal_is_shaped();
    ber::an_integer_reads_back(1);
    assert(elements[1].0 == ber::context_tag(1, false));
    assert(elements[2].0 == ber::context_tag(2, false));
    assert(elements[4].0 == ber::context_tag(4, true));
}

/// Every PDU reads back as it was written, up to the length that a reader
/// takes.
pub proof fn a_pdu_reads_back(pdu: PduView)
    requires
        pdu_contents(pdu).len() <= u32::MAX,
    ensures
        pdu_of(pdu_octets(pdu)) == Ok::<PduView, ProtocolError>(pdu),
{
    ber::an_element_alone_reads_back(pdu_tag(pdu), pdu_contents(pdu));
    if pdu is Write || pdu is Read {
        lemma_request_reads_back(pdu);
    } else if pdu.invoke() is Some {
        lemma_response_reads_back(pdu);
    } else {
        the_initiate_detail_is_shaped();
    }
}

/// A PDU longer than a reader takes is refused by it.
pub proof fn a_pdu_too_long_is_refused(pdu: PduView)
    requires
        u32::MAX < pdu_contents(pdu).len() <= u64::MAX,
    ensures
        pdu_of(pdu_octets(pdu)) == Err::<PduView, ProtocolError>(
            ProtocolError::IndefiniteOrTooWide,
        ),
{
    ber::an_element_too_long_is_refused(pdu_tag(pdu), pdu_contents(pdu), Seq::empty());
    assert(pdu_octets(pdu) + Seq::empty() =~= pdu_octets(pdu));
}

/// Bytes after a PDU are refused.
pub proof fn bytes_after_a_pdu_are_refused(pdu: PduView, after: Seq<u8>)
    requires
        pdu_contents(pdu).len() <= u32::MAX,
        after.len() > 0,
    ensures
        pdu_of(pdu_octets(pdu) + after) == Err::<PduView, ProtocolError>(
            ProtocolError::BytesAfterPdu,
        ),
{
    ber::an_element_reads_back(pdu_tag(pdu), pdu_contents(pdu), after);
}

/// A PDU that carries neither names nor data is short.
pub proof fn a_pdu_without_names_or_data_is_short(pdu: PduView)
    requires
        !(pdu is Write || pdu is Read || pdu is ReadOk),
    ensures
        pdu_octets(pdu).len() <= 64,
{
    octets::lemma_half_range_of_eight();
    reveal_with_fuel(octets::half_range, 2);
    octets::lemma_half_range_grows(1, 8);
    if let Some(invoke) = pdu.invoke() {
        octets::lemma_integer_octets_width(invoke as int, 8);
    }
    match pdu {
        PduView::WriteFailed { error, .. } | PduView::ReadFailed { error, .. } => {
            octets::lemma_integer_octets_width(error as int, 8);
        },
        PduView::Initiate | PduView::InitiateOk => {
            lemma_initiate_is_short();
        },
        _ => {},
    }
}

/// A PDU that carries neither names nor data always reads back.
pub proof fn a_pdu_without_names_or_data_reads_back(pdu: PduView)
    requires
        !(pdu is Write || pdu is Read || pdu is ReadOk),
    ensures
        pdu_of(pdu_octets(pdu)) == Ok::<PduView, ProtocolError>(pdu),
{
    a_pdu_without_names_or_data_is_short(pdu);
    a_pdu_reads_back(pdu);
}

/// An initiate, whichever way, is refused where one of the parameters that
/// it has to state is not there.
pub proof fn an_initiate_without_a_parameter_is_refused(tag: u8, contents: Seq<u8>, missing: u8)
    requires
        tag == INITIATE_REQUEST || tag == INITIATE_RESPONSE,
        contents.len() <= u32::MAX,
        missing == ber::context_tag(1, false) || missing == ber::context_tag(2, false) || missing
            == ber::context_tag(4, true),
        ber::all_elements(contents) matches Ok(elements) ==> forall|i: int|
            0 <= i < elements.len() ==> (#[trigger] elements[i]).0 != missing,
    ensures
        pdu_of(ber::element_octets(tag, contents)) == Err::<PduView, ProtocolError>(
            ProtocolError::InitiateShape,
        ),
{
    ber::an_element_alone_reads_back(tag, contents);
    if let Ok(elements) = ber::all_elements(contents) {
        ber::a_tag_that_is_not_there_is_not_found(elements, missing);
    }
}

/// A conclude, whichever way, is refused where it is not empty.
pub proof fn a_conclude_with_contents_is_refused(tag: u8, contents: Seq<u8>)
    requires
        tag == CONCLUDE_REQUEST || tag == CONCLUDE_RESPONSE,
        0 < contents.len() <= u32::MAX,
    ensures
        pdu_of(ber::element_octets(tag, contents)) == Err::<PduView, ProtocolError>(
            ProtocolError::NullContents,
        ),
{
    ber::an_element_alone_reads_back(tag, contents);
}

/// Both sides propose no parameter CBB and list no service: under `[4]`, the
/// bit strings `[1]` and `[2]` have no bit set.
pub proof fn nothing_is_proposed_but_the_version()
    ensures
        ({
            let elements = ber::all_elements(initiate_contents())->Ok_0;
            let proposed = ber::first_tagged(elements, ber::context_tag(4, true))->Ok_0;
            let proposals = ber::all_elements(proposed)->Ok_0;
            let parameters = ber::first_tagged(proposals, ber::context_tag(1, false))->Ok_0;
            let services = ber::first_tagged(proposals, ber::context_tag(2, false))->Ok_0;
            &&& initiate_shape(initiate_contents())
            &&& forall|i: int| 0 < i < parameters.len() ==> #[trigger] parameters[i] == 0
            &&& forall|i: int| 0 < i < services.len() ==> #[trigger] services[i] == 0
        }),
{
    the_initiate_detail_is_shaped();
    lemma_initiate_parameters();
    lemma_proposal_parameters();
    assert(initiate_elements()[4].0 == ber::context_tag(4, true));
    assert(proposal_elements()[1].0 == ber::context_tag(1, false));
    assert(proposal_elements()[2].0 == ber::context_tag(2, false));
}

/// A PDU cut short is refused.
pub proof fn a_pdu_cut_short_is_refused(pdu: PduView, left: int)
    requires
        pdu_contents(pdu).len() <= u32::MAX,
        0 <= left < pdu_octets(pdu).len(),
    ensures
        pdu_of(pdu_octets(pdu).take(left)) is Err,
{
    ber::an_element_cut_short_is_refused(pdu_tag(pdu), pdu_contents(pdu), left);
}

/// No two PDUs are written alike.
pub proof fn no_two_pdus_are_written_alike(one: PduView, other: PduView)
    requires
        pdu_contents(one).len() <= u32::MAX,
        pdu_contents(other).len() <= u32::MAX,
        one != other,
    ensures
        pdu_octets(one) != pdu_octets(other),
{
    a_pdu_reads_back(one);
    a_pdu_reads_back(other);
}

/// What a PDU says is what its fields hold, and a decoded one is that PDU or
/// that error.
pub proof fn a_pdu_says_what_its_fields_hold(pdu: Pdu, error: ProtocolError)
    ensures
        match pdu {
            Pdu::Initiate => pdu@ == PduView::Initiate && pdu@.invoke() is None,
            Pdu::InitiateOk => pdu@ == PduView::InitiateOk && pdu@.invoke() is None,
            Pdu::Write { invoke, domain, item, data } => pdu@ == (PduView::Write {
                invoke,
                domain: domain@,
                item: item@,
                data: data@,
            }) && pdu@.invoke() == Some(invoke),
            Pdu::WriteOk { invoke } => pdu@ == (PduView::WriteOk { invoke }) && pdu@.invoke()
                == Some(invoke),
            Pdu::WriteFailed { invoke, error } => pdu@ == (PduView::WriteFailed {
                invoke,
                error,
            }) && pdu@.invoke() == Some(invoke),
            Pdu::Read { invoke, domain, item } => pdu@ == (PduView::Read {
                invoke,
                domain: domain@,
                item: item@,
            }) && pdu@.invoke() == Some(invoke),
            Pdu::ReadOk { invoke, data } => pdu@ == (PduView::ReadOk { invoke, data: data@ })
                && pdu@.invoke() == Some(invoke),
            Pdu::ReadFailed { invoke, error } => pdu@ == (PduView::ReadFailed {
                invoke,
                error,
            }) && pdu@.invoke() == Some(invoke),
            Pdu::Conclude => pdu@ == PduView::Conclude && pdu@.invoke() is None,
            Pdu::ConcludeOk => pdu@ == PduView::ConcludeOk && pdu@.invoke() is None,
        },
        decoded_view(Ok(pdu)) == Ok::<PduView, ProtocolError>(pdu@),
        decoded_view(Err(error)) == Err::<PduView, ProtocolError>(error),
{
}

/// The data access error for a variable that is not there is the one that
/// ISO 9506-2 calls object-non-existent.
pub proof fn what_is_not_there_has_its_number()
    ensures
        OBJECT_NON_EXISTENT == 10,
{
}

/// A write names its variable under `[0]`, then holds its data under `[0]`, in
/// one octet string, octet by octet and last of all, however long it is.
pub proof fn a_write_puts_its_data_on_the_wire_as_it_is(
    invoke: u32,
    domain: Seq<char>,
    item: Seq<char>,
    data: Seq<u8>,
)
    ensures
        pdu_octets(PduView::Write { invoke, domain, item, data }) == ber::element_octets(
            0xa0,
            ber::element_octets(0x02, octets::integer_octets(invoke as int))
                + ber::element_octets(0xa5, 
                    ber::element_octets(
                        0xa0,
                        ber::element_octets(
                            0x30,
                            ber::element_octets(
                                0xa0,
                                ber::element_octets(
                                    0xa1,
                                    ber::element_octets(0x1a, utf8::encode_utf8(domain))
                                        + ber::element_octets(0x1a, utf8::encode_utf8(item)),
                                ),
                            ),
                        ),
                    ) + ber::element_octets(0xa0, ber::element_octets(0x89, data)),
                ),
        ),
        ({
            let written = pdu_octets(PduView::Write { invoke, domain, item, data });
            written.skip(written.len() - data.len()) == data
        }),
{
    let written = pdu_octets(PduView::Write { invoke, domain, item, data });
    assert(written.skip(written.len() - data.len()) =~= data);
}

/// A read names its variable under `[1]` and `[0]`.
pub proof fn a_read_puts_its_variable_on_the_wire(invoke: u32, domain: Seq<char>, item: Seq<char>)
    ensures
        pdu_octets(PduView::Read { invoke, domain, item }) == ber::element_octets(
            0xa0,
            ber::element_octets(0x02, octets::integer_octets(invoke as int))
                + ber::element_octets(0xa4, 
                    ber::element_octets(0xa1, ber::element_octets(
                        0xa0,
                        ber::element_octets(
                            0x30,
                            ber::element_octets(
                                0xa0,
                                ber::element_octets(
                                    0xa1,
                                    ber::element_octets(0x1a, utf8::encode_utf8(domain))
                                        + ber::element_octets(0x1a, utf8::encode_utf8(item)),
                                ),
                            ),
                        ),
                    )),
                ),
        ),
{
}

/// An answer to a read holds the data under `[1]` in one octet string, octet
/// by octet and last of all, however long it is.
pub proof fn a_read_is_answered_with_its_data_as_it_is(invoke: u32, data: Seq<u8>)
    ensures
        pdu_octets(PduView::ReadOk { invoke, data }) == ber::element_octets(
            0xa1,
            ber::element_octets(0x02, octets::integer_octets(invoke as int))
                + ber::element_octets(0xa4, ber::element_octets(0xa1, ber::element_octets(0x89, data))),
        ),
        ({
            let written = pdu_octets(PduView::ReadOk { invoke, data });
            written.skip(written.len() - data.len()) == data
        }),
{
    let written = pdu_octets(PduView::ReadOk { invoke, data });
    assert(written.skip(written.len() - data.len()) =~= data);
}

/// Success and failure stand on the wire under their own tags, a failure with
/// its number.
pub proof fn other_answers_on_the_wire(invoke: u32, error: i64)
    ensures
        pdu_octets(PduView::WriteOk { invoke }) == ber::element_octets(
            0xa1,
            ber::element_octets(0x02, octets::integer_octets(invoke as int))
                + ber::element_octets(0xa5, ber::element_octets(0x81, Seq::empty())),
        ),
        pdu_octets(PduView::WriteFailed { invoke, error }) == ber::element_octets(
            0xa1,
            ber::element_octets(0x02, octets::integer_octets(invoke as int))
                + ber::element_octets(0xa5, 
                    ber::element_octets(0x80, octets::integer_octets(error as int)),
                ),
        ),
        pdu_octets(PduView::ReadFailed { invoke, error }) == ber::element_octets(
            0xa1,
            ber::element_octets(0x02, octets::integer_octets(invoke as int))
                + ber::element_octets(0xa4, 
                    ber::element_octets(0xa1, ber::element_octets(0x80, octets::integer_octets(error as int))),
                ),
        ),
{
}

/// Initiate and its answer state the same detail on the wire; conclude and
/// its answer state nothing.
pub proof fn associations_on_the_wire()
    ensures
        ({
            let proposal = ber::element_octets(0x80, seq![0x01u8]) + ber::element_octets(
                0x81,
                seq![0x05u8, 0x00, 0x00],
            ) + ber::element_octets(0x82, seq![0x03u8, 0x00, 0x00, 0x00, 0x00, 0x00, 0x00]);
            let detail = ber::element_octets(0x80, seq![0x00u8, 0xfd, 0xe8]) + ber::element_octets(
                0x81,
                seq![0x01u8],
            ) + ber::element_octets(0x82, seq![0x01u8]) + ber::element_octets(0x83, seq![0x00u8])
                + ber::element_octets(0xa4, proposal);
            &&& pdu_octets(PduView::Initiate) == ber::element_octets(0xa8, detail)
            &&& pdu_octets(PduView::InitiateOk) == ber::element_octets(0xa9, detail)
        }),
        pdu_octets(PduView::Conclude) == ber::element_octets(0x8b, Seq::empty()),
        pdu_octets(PduView::ConcludeOk) == ber::element_octets(0x8c, Seq::empty()),
{
    let proposal = ber::element_octets(0x80, seq![0x01u8]) + ber::element_octets(
        0x81,
        seq![0x05u8, 0x00, 0x00],
    ) + ber::element_octets(0x82, seq![0x03u8, 0x00, 0x00, 0x00, 0x00, 0x00, 0x00]);
    let detail = ber::element_octets(0x80, seq![0x00u8, 0xfd, 0xe8]) + ber::element_octets(
        0x81,
        seq![0x01u8],
    ) + ber::element_octets(0x82, seq![0x01u8]) + ber::element_octets(0x83, seq![0x00u8])
        + ber::element_octets(0xa4, proposal);
    assert(octets::integer_octets(0) =~= seq![0x00u8]);
    assert(octets::integer_octets(1) =~= seq![0x01u8]);
    assert(octets::integer_octets(65_000) =~= seq![0x00u8, 0xfd, 0xe8]) by {
        assert(octets::integer_octets(0) =~= seq![0x00u8]);
        assert(octets::integer_octets(253) =~= seq![0x00u8, 0xfd]);
    }
    assert(ber::elements_octets(proposal_elements()) =~= proposal) by {
        reveal_with_fuel(ber::elements_octets, 4);
    }
    assert(initiate_contents() =~= detail) by {
        reveal_with_fuel(ber::elements_octets, 6);
    }
}

/// An initiate, or its answer, is taken for one wherever it states `[1]` and
/// `[2]` as INTEGERs and proposes version 1 and two BIT STRINGs, whatever the
/// numbers are and whatever bits are set.
pub proof fn an_initiate_is_taken_whatever_it_proposes(
    octets: Seq<u8>,
    tag: u8,
    contents: Seq<u8>,
    elements: Seq<(u8, Seq<u8>)>,
    calling: Seq<u8>,
    called: Seq<u8>,
    proposal: Seq<u8>,
    proposals: Seq<(u8, Seq<u8>)>,
    version: Seq<u8>,
    parameters: Seq<u8>,
    services: Seq<u8>,
)
    requires
        tag == 0xa8 || tag == 0xa9,
        ber::first_element(octets) == Ok::<(u8, Seq<u8>, Seq<u8>), ProtocolError>(
            (tag, contents, Seq::empty()),
        ),
        ber::all_elements(contents) == Ok::<Seq<(u8, Seq<u8>)>, ProtocolError>(elements),
        ber::first_tagged(elements, 0x81) == Ok::<Seq<u8>, ProtocolError>(calling),
        1 <= calling.len() <= 8,
        ber::first_tagged(elements, 0x82) == Ok::<Seq<u8>, ProtocolError>(called),
        1 <= called.len() <= 8,
        ber::first_tagged(elements, 0xa4) == Ok::<Seq<u8>, ProtocolError>(proposal),
        ber::all_elements(proposal) == Ok::<Seq<(u8, Seq<u8>)>, ProtocolError>(proposals),
        ber::first_tagged(proposals, 0x80) == Ok::<Seq<u8>, ProtocolError>(version),
        1 <= version.len() <= 8,
        octets::signed_value(version) == 1,
        ber::first_tagged(proposals, 0x81) == Ok::<Seq<u8>, ProtocolError>(parameters),
        parameters.len() > 0 && parameters[0] <= 7,
        parameters.len() == 1 ==> parameters[0] == 0,
        ber::first_tagged(proposals, 0x82) == Ok::<Seq<u8>, ProtocolError>(services),
        services.len() > 0 && services[0] <= 7,
        services.len() == 1 ==> services[0] == 0,
    ensures
        pdu_of(octets) == Ok::<PduView, ProtocolError>(
            if tag == 0xa8 { PduView::Initiate } else { PduView::InitiateOk },
        ),
{
}

/// Nothing else is taken for an initiate or its answer.
pub proof fn only_an_initiate_is_taken_for_one(octets: Seq<u8>)
    requires
        pdu_of(octets) == Ok::<PduView, ProtocolError>(PduView::Initiate) || pdu_of(octets)
            == Ok::<PduView, ProtocolError>(PduView::InitiateOk),
    ensures
        ({
            let (tag, contents, rest) = ber::first_element(octets)->Ok_0;
            let elements = ber::all_elements(contents)->Ok_0;
            let calling = ber::first_tagged(elements, 0x81);
            let called = ber::first_tagged(elements, 0x82);
            let proposal = ber::first_tagged(elements, 0xa4);
            let proposals = ber::all_elements(proposal->Ok_0)->Ok_0;
            let version = ber::first_tagged(proposals, 0x80);
            let parameters = ber::first_tagged(proposals, 0x81);
            let services = ber::first_tagged(proposals, 0x82);
            &&& ber::first_element(octets) is Ok
            &&& rest.len() == 0
            &&& tag == (if pdu_of(octets)->Ok_0 is Initiate {
                0xa8u8
            } else {
                0xa9u8
            })
            &&& ber::all_elements(contents) is Ok
            &&& calling is Ok && 1 <= calling->Ok_0.len() <= 8
            &&& called is Ok && 1 <= called->Ok_0.len() <= 8
            &&& proposal is Ok && ber::all_elements(proposal->Ok_0) is Ok
            &&& version is Ok && 1 <= version->Ok_0.len() <= 8
            &&& octets::signed_value(version->Ok_0) == 1
            &&& parameters is Ok && parameters->Ok_0.len() > 0 && parameters->Ok_0[0] <= 7
            &&& parameters->Ok_0.len() == 1 ==> parameters->Ok_0[0] == 0
            &&& services is Ok && services->Ok_0.len() > 0 && services->Ok_0[0] <= 7
            &&& services->Ok_0.len() == 1 ==> services->Ok_0[0] == 0
        }),
{
    reveal(confirmed_pdu);
}

/// What stands under the tag of an initiate, or of its answer, is one or is
/// refused as none.
pub proof fn what_is_no_initiate_is_refused(octets: Seq<u8>, tag: u8, contents: Seq<u8>)
    requires
        tag == 0xa8 || tag == 0xa9,
        ber::first_element(octets) == Ok::<(u8, Seq<u8>, Seq<u8>), ProtocolError>(
            (tag, contents, Seq::empty()),
        ),
    ensures
        match pdu_of(octets) {
            Ok(pdu) => pdu == (if tag == 0xa8 {
                PduView::Initiate
            } else {
                PduView::InitiateOk
            }),
            Err(error) => error == ProtocolError::InitiateShape,
        },
{
}

/// A conclude, or its answer, is taken for one where it is empty.
pub proof fn a_conclude_is_taken_where_it_is_empty(octets: Seq<u8>, tag: u8, contents: Seq<u8>)
    requires
        tag == 0x8b || tag == 0x8c,
        ber::first_element(octets) == Ok::<(u8, Seq<u8>, Seq<u8>), ProtocolError>(
            (tag, contents, Seq::empty()),
        ),
    ensures
        pdu_of(octets) == (if contents.len() != 0 {
            Err(ProtocolError::NullContents)
        } else if tag == 0x8b {
            Ok(PduView::Conclude)
        } else {
            Ok(PduView::ConcludeOk)
        }),
{
}

/// Nothing else is taken for a conclude or its answer.
pub proof fn only_a_conclude_is_taken_for_one(octets: Seq<u8>)
    requires
        pdu_of(octets) == Ok::<PduView, ProtocolError>(PduView::Conclude) || pdu_of(octets)
            == Ok::<PduView, ProtocolError>(PduView::ConcludeOk),
    ensures
        ({
            let (tag, contents, rest) = ber::first_element(octets)->Ok_0;
            &&& ber::first_element(octets) is Ok
            &&& rest.len() == 0
            &&& contents.len() == 0
            &&& tag == (if pdu_of(octets)->Ok_0 is Conclude {
                0x8bu8
            } else {
                0x8cu8
            })
        }),
{
    reveal(confirmed_pdu);
}

/// What is no element, has bytes after it, or has a tag that no PDU has is
/// refused, and the error says which.
pub proof fn what_is_no_pdu_is_refused(octets: Seq<u8>)
    ensures
        match ber::first_element(octets) {
            Err(error) => pdu_of(octets) == Err::<PduView, ProtocolError>(error),
            Ok((tag, _, rest)) => {
                &&& rest.len() > 0 ==> pdu_of(octets) == Err::<PduView, ProtocolError>(ProtocolError::BytesAfterPdu)
                &&& rest.len() == 0 && tag != 0xa0 && tag != 0xa1 && tag != 0xa8 && tag != 0xa9
                    && tag != 0x8b && tag != 0x8c ==> pdu_of(octets) == Err::<PduView, ProtocolError>(ProtocolError::UnknownPdu(tag))
            },
        },
{
}

/// A confirmed PDU without its invoke identifier, or without its one service,
/// is refused, and the error says which.
pub proof fn a_confirmed_pdu_without_its_parts_is_refused(
    octets: Seq<u8>,
    tag: u8,
    contents: Seq<u8>,
)
    requires
        tag == 0xa0 || tag == 0xa1,
        ber::first_element(octets) == Ok::<(u8, Seq<u8>, Seq<u8>), ProtocolError>(
            (tag, contents, Seq::empty()),
        ),
    ensures
        match ber::first_element(contents) {
            Err(error) => pdu_of(octets) == Err::<PduView, ProtocolError>(error),
            Ok((integer, identifier, served)) => {
                let value = octets::signed_value(identifier);
                if integer != 0x02 {
                    pdu_of(octets) == Err::<PduView, ProtocolError>(ProtocolError::NoInvoke)
                } else if !(1 <= identifier.len() <= 8) {
                    pdu_of(octets) == Err::<PduView, ProtocolError>(ProtocolError::IntegerWidth)
                } else if !(0 <= value <= 0xffff_ffff) {
                    pdu_of(octets) == Err::<PduView, ProtocolError>(ProtocolError::InvokeRange)
                } else {
                    match ber::first_element(served) {
                        Err(error) => pdu_of(octets) == Err::<PduView, ProtocolError>(error),
                        Ok((service, _, after)) => {
                            &&& after.len() > 0 ==> pdu_of(octets) == Err::<PduView, ProtocolError>(ProtocolError::BytesAfterService)
                            &&& after.len() == 0 && service != 0xa4 && service != 0xa5
                                ==> pdu_of(octets) == Err::<PduView, ProtocolError>(ProtocolError::UnknownService(service))
                        },
                    }
                }
            },
        },
{
    reveal(confirmed_pdu);
}

proof fn lemma_confirmed_is_taken_apart(
    octets: Seq<u8>,
    tag: u8,
    contents: Seq<u8>,
    identifier: Seq<u8>,
    served: Seq<u8>,
    invoke: u32,
    service: u8,
    body: Seq<u8>,
)
    requires
        tag == 0xa0 || tag == 0xa1,
        ber::first_element(octets) == Ok::<(u8, Seq<u8>, Seq<u8>), ProtocolError>(
            (tag, contents, Seq::empty()),
        ),
        ber::first_element(contents) == Ok::<(u8, Seq<u8>, Seq<u8>), ProtocolError>(
            (0x02u8, identifier, served),
        ),
        1 <= identifier.len() <= 8,
        octets::signed_value(identifier) == invoke,
        ber::first_element(served) == Ok::<(u8, Seq<u8>, Seq<u8>), ProtocolError>(
            (service, body, Seq::empty()),
        ),
    ensures
        tag == 0xa0 && service == 0xa5 ==> pdu_of(octets) == write_request(invoke, body),
        tag == 0xa0 && service == 0xa4 ==> pdu_of(octets) == read_request(invoke, body),
        tag == 0xa1 && service == 0xa5 ==> pdu_of(octets) == write_result(invoke, body),
        tag == 0xa1 && service == 0xa4 ==> pdu_of(octets) == read_result(invoke, body),
{
    assert(confirmed_parts(contents) == Ok::<(u32, u8, Seq<u8>), ProtocolError>(
        (invoke, service, body),
    ));
    reveal(confirmed_pdu);
}

/// A variable is named by what stands on the wire: one SEQUENCE that holds a
/// name `[0]`, after it nothing but an `alternateAccess [5]`, and in the name,
/// domain-specific under `[1]`, two VisibleStrings, the domain and then the
/// item. Anything else is refused, and the error says why.
pub proof fn a_variable_is_named_by_what_stands_on_the_wire(list: Seq<u8>)
    ensures
        name_in_list(list) == (match ber::first_element(list) {
            Err(error) => Err(error),
            Ok((tag, sequence, rest)) => if tag != 0x30 {
                Err(ProtocolError::Misplaced(tag))
            } else if rest.len() > 0 {
                Err(ProtocolError::BytesAfterElement)
            } else {
                match ber::first_element(sequence) {
                    Err(error) => Err(error),
                    Ok((form, object_name, access)) => if form != 0xa0 {
                        Err(ProtocolError::Misplaced(form))
                    } else {
                        match ber::first_element(access) {
                            Err(error) => if access.len() > 0 {
                                Err(error)
                            } else {
                                object_name_of(object_name)
                            },
                            Ok((accessed, _, more)) => if accessed != 0xa5 {
                                Err(ProtocolError::Misplaced(accessed))
                            } else if more.len() > 0 {
                                Err(ProtocolError::BytesAfterElement)
                            } else {
                                object_name_of(object_name)
                            },
                        }
                    },
                }
            },
        }),
{
}

/// An object name is the two VisibleStrings that stand on the wire, the domain
/// and then the item. Anything else is refused, and the error says why.
pub proof fn an_object_name_is_its_two_identifiers(object_name: Seq<u8>)
    ensures
        object_name_of(object_name) == (match ber::first_element(object_name) {
            Err(error) => Err(error),
            Ok((tag, domain_specific, rest)) => if tag != 0xa1 {
                Err(ProtocolError::NotDomainSpecific)
            } else if rest.len() > 0 {
                Err(ProtocolError::BytesAfterElement)
            } else {
                match ber::all_elements(domain_specific) {
                    Err(error) => Err(error),
                    Ok(parts) => if parts.len() != 2 || parts[0].0 != 0x1a || parts[1].0 != 0x1a {
                        Err(ProtocolError::NotTwoIdentifiers)
                    } else {
                        Ok((text::text_of(parts[0].1), text::text_of(parts[1].1)))
                    },
                }
            },
        }),
{
}

/// A write request that is not laid out as one is refused, and the error says
/// why; the variable is looked at before the data.
pub proof fn a_write_is_decided_by_what_stands_on_the_wire(
    octets: Seq<u8>,
    contents: Seq<u8>,
    identifier: Seq<u8>,
    served: Seq<u8>,
    invoke: u32,
    body: Seq<u8>,
)
    requires
        ber::first_element(octets) == Ok::<(u8, Seq<u8>, Seq<u8>), ProtocolError>(
            (0xa0u8, contents, Seq::empty()),
        ),
        ber::first_element(contents) == Ok::<(u8, Seq<u8>, Seq<u8>), ProtocolError>(
            (0x02u8, identifier, served),
        ),
        1 <= identifier.len() <= 8,
        octets::signed_value(identifier) == invoke,
        ber::first_element(served) == Ok::<(u8, Seq<u8>, Seq<u8>), ProtocolError>(
            (0xa5u8, body, Seq::empty()),
        ),
    ensures
        pdu_of(octets) == (match ber::first_element(body) {
            Err(error) => Err(error),
            Ok((first, list, others)) => if first != 0xa0 {
                Err(ProtocolError::Misplaced(first))
            } else {
                match ber::first_element(others) {
                    Err(error) => Err(error),
                    Ok((second, list_of_data, more)) => if second != 0xa0 {
                        Err(ProtocolError::Misplaced(second))
                    } else if more.len() > 0 {
                        Err(ProtocolError::BytesAfterElement)
                    } else {
                        match name_in_list(list) {
                            Err(error) => Err(error),
                            Ok((domain, item)) => match ber::first_element(list_of_data) {
                                Err(error) => Err(error),
                                Ok((tag, data, rest)) => if tag != 0x89 {
                                    Err(ProtocolError::NotOctetString)
                                } else if rest.len() > 0 {
                                    Err(ProtocolError::BytesAfterElement)
                                } else {
                                    Ok(PduView::Write { invoke, domain, item, data })
                                },
                            },
                        }
                    },
                }
            },
        }),
{
    lemma_confirmed_is_taken_apart(
        octets,
        0xa0,
        contents,
        identifier,
        served,
        invoke,
        0xa5,
        body,
    );
}

/// A read request that is not laid out as one is refused, and the error says
/// why.
pub proof fn a_read_is_decided_by_what_stands_on_the_wire(
    octets: Seq<u8>,
    contents: Seq<u8>,
    identifier: Seq<u8>,
    served: Seq<u8>,
    invoke: u32,
    body: Seq<u8>,
)
    requires
        ber::first_element(octets) == Ok::<(u8, Seq<u8>, Seq<u8>), ProtocolError>(
            (0xa0u8, contents, Seq::empty()),
        ),
        ber::first_element(contents) == Ok::<(u8, Seq<u8>, Seq<u8>), ProtocolError>(
            (0x02u8, identifier, served),
        ),
        1 <= identifier.len() <= 8,
        octets::signed_value(identifier) == invoke,
        ber::first_element(served) == Ok::<(u8, Seq<u8>, Seq<u8>), ProtocolError>(
            (0xa4u8, body, Seq::empty()),
        ),
    ensures
        pdu_of(octets) == (match ber::all_elements(body) {
            Err(error) => Err(error),
            Ok(elements) => match ber::first_tagged(elements, 0xa1) {
                Err(error) => Err(error),
                Ok(specification) => if !(elements.len() == 1 || (elements.len() == 2
                    && elements[0].0 == 0x80 && elements[0].1.len() == 1)) || elements.last().0
                    != 0xa1 {
                    Err(ProtocolError::ReadShape)
                } else {
                    match ber::first_element(specification) {
                        Err(error) => Err(error),
                        Ok((tag, list, rest)) => if tag != 0xa0 {
                            Err(ProtocolError::Misplaced(tag))
                        } else if rest.len() > 0 {
                            Err(ProtocolError::BytesAfterElement)
                        } else {
                            match name_in_list(list) {
                                Err(error) => Err(error),
                                Ok((domain, item)) => Ok(PduView::Read { invoke, domain, item }),
                            }
                        },
                    }
                },
            },
        }),
{
    lemma_confirmed_is_taken_apart(
        octets,
        0xa0,
        contents,
        identifier,
        served,
        invoke,
        0xa4,
        body,
    );
}

proof fn lemma_name_is_taken(
    list: Seq<u8>,
    sequence: Seq<u8>,
    object_name: Seq<u8>,
    access: Seq<u8>,
    domain_specific: Seq<u8>,
    domain: Seq<u8>,
    item: Seq<u8>,
)
    requires
        ber::first_element(list) == Ok::<(u8, Seq<u8>, Seq<u8>), ProtocolError>(
            (0x30u8, sequence, Seq::empty()),
        ),
        ber::first_element(sequence) == Ok::<(u8, Seq<u8>, Seq<u8>), ProtocolError>(
            (0xa0u8, object_name, access),
        ),
        access.len() == 0 || (ber::first_element(access) matches Ok((tag, _, rest)) && tag == 0xa5
            && rest.len() == 0),
        ber::first_element(object_name) == Ok::<(u8, Seq<u8>, Seq<u8>), ProtocolError>(
            (0xa1u8, domain_specific, Seq::empty()),
        ),
        ber::all_elements(domain_specific) == Ok::<Seq<(u8, Seq<u8>)>, ProtocolError>(
            seq![(0x1au8, domain), (0x1au8, item)],
        ),
    ensures
        name_in_list(list) == Ok::<(Seq<char>, Seq<char>), ProtocolError>(
            (text::text_of(domain), text::text_of(item)),
        ),
{
}

/// A write carries the data of the octet string that stands on the wire,
/// octet by octet, and the names that stand there, whatever wrote it.
pub proof fn a_write_carries_what_stands_on_the_wire(
    octets: Seq<u8>,
    contents: Seq<u8>,
    identifier: Seq<u8>,
    served: Seq<u8>,
    invoke: u32,
    body: Seq<u8>,
    after: Seq<u8>,
    list: Seq<u8>,
    sequence: Seq<u8>,
    object_name: Seq<u8>,
    access: Seq<u8>,
    domain_specific: Seq<u8>,
    domain: Seq<u8>,
    item: Seq<u8>,
    list_of_data: Seq<u8>,
    data: Seq<u8>,
)
    requires
        ber::first_element(octets) == Ok::<(u8, Seq<u8>, Seq<u8>), ProtocolError>(
            (0xa0u8, contents, Seq::empty()),
        ),
        ber::first_element(contents) == Ok::<(u8, Seq<u8>, Seq<u8>), ProtocolError>(
            (0x02u8, identifier, served),
        ),
        1 <= identifier.len() <= 8,
        octets::signed_value(identifier) == invoke,
        ber::first_element(served) == Ok::<(u8, Seq<u8>, Seq<u8>), ProtocolError>(
            (0xa5u8, body, Seq::empty()),
        ),
        ber::first_element(body) == Ok::<(u8, Seq<u8>, Seq<u8>), ProtocolError>(
            (0xa0u8, list, after),
        ),
        ber::first_element(after) == Ok::<(u8, Seq<u8>, Seq<u8>), ProtocolError>(
            (0xa0u8, list_of_data, Seq::empty()),
        ),
        ber::first_element(list_of_data) == Ok::<(u8, Seq<u8>, Seq<u8>), ProtocolError>(
            (0x89u8, data, Seq::empty()),
        ),
        ber::first_element(list) == Ok::<(u8, Seq<u8>, Seq<u8>), ProtocolError>(
            (0x30u8, sequence, Seq::empty()),
        ),
        ber::first_element(sequence) == Ok::<(u8, Seq<u8>, Seq<u8>), ProtocolError>(
            (0xa0u8, object_name, access),
        ),
        access.len() == 0 || (ber::first_element(access) matches Ok((tag, _, rest)) && tag == 0xa5
            && rest.len() == 0),
        ber::first_element(object_name) == Ok::<(u8, Seq<u8>, Seq<u8>), ProtocolError>(
            (0xa1u8, domain_specific, Seq::empty()),
        ),
        ber::all_elements(domain_specific) == Ok::<Seq<(u8, Seq<u8>)>, ProtocolError>(
            seq![(0x1au8, domain), (0x1au8, item)],
        ),
    ensures
        pdu_of(octets) == Ok::<PduView, ProtocolError>(
            (PduView::Write { invoke, domain: text::text_of(domain), item: text::text_of(item), data }),
        ),
{
    lemma_confirmed_is_taken_apart(
        octets,
        0xa0,
        contents,
        identifier,
        served,
        invoke,
        0xa5,
        body,
    );
    lemma_name_is_taken(list, sequence, object_name, access, domain_specific, domain, item);
}

/// A read names the variable that stands on the wire, with or without a
/// BOOLEAN `[0]` before it, whatever wrote it.
pub proof fn a_read_names_what_stands_on_the_wire(
    octets: Seq<u8>,
    contents: Seq<u8>,
    identifier: Seq<u8>,
    served: Seq<u8>,
    invoke: u32,
    body: Seq<u8>,
    elements: Seq<(u8, Seq<u8>)>,
    specification: Seq<u8>,
    list: Seq<u8>,
    sequence: Seq<u8>,
    object_name: Seq<u8>,
    access: Seq<u8>,
    domain_specific: Seq<u8>,
    domain: Seq<u8>,
    item: Seq<u8>,
)
    requires
        ber::first_element(octets) == Ok::<(u8, Seq<u8>, Seq<u8>), ProtocolError>(
            (0xa0u8, contents, Seq::empty()),
        ),
        ber::first_element(contents) == Ok::<(u8, Seq<u8>, Seq<u8>), ProtocolError>(
            (0x02u8, identifier, served),
        ),
        1 <= identifier.len() <= 8,
        octets::signed_value(identifier) == invoke,
        ber::first_element(served) == Ok::<(u8, Seq<u8>, Seq<u8>), ProtocolError>(
            (0xa4u8, body, Seq::empty()),
        ),
        ber::all_elements(body) == Ok::<Seq<(u8, Seq<u8>)>, ProtocolError>(elements),
        elements == seq![(0xa1u8, specification)] || (elements.len() == 2 && elements[0].0 == 0x80
            && elements[0].1.len() == 1 && elements[1] == (0xa1u8, specification)),
        ber::first_element(specification) == Ok::<(u8, Seq<u8>, Seq<u8>), ProtocolError>(
            (0xa0u8, list, Seq::empty()),
        ),
        ber::first_element(list) == Ok::<(u8, Seq<u8>, Seq<u8>), ProtocolError>(
            (0x30u8, sequence, Seq::empty()),
        ),
        ber::first_element(sequence) == Ok::<(u8, Seq<u8>, Seq<u8>), ProtocolError>(
            (0xa0u8, object_name, access),
        ),
        access.len() == 0 || (ber::first_element(access) matches Ok((tag, _, rest)) && tag == 0xa5
            && rest.len() == 0),
        ber::first_element(object_name) == Ok::<(u8, Seq<u8>, Seq<u8>), ProtocolError>(
            (0xa1u8, domain_specific, Seq::empty()),
        ),
        ber::all_elements(domain_specific) == Ok::<Seq<(u8, Seq<u8>)>, ProtocolError>(
            seq![(0x1au8, domain), (0x1au8, item)],
        ),
    ensures
        pdu_of(octets) == Ok::<PduView, ProtocolError>(
            (PduView::Read { invoke, domain: text::text_of(domain), item: text::text_of(item) }),
        ),
{
    lemma_confirmed_is_taken_apart(
        octets,
        0xa0,
        contents,
        identifier,
        served,
        invoke,
        0xa4,
        body,
    );
    lemma_name_is_taken(list, sequence, object_name, access, domain_specific, domain, item);
    if elements.len() == 2 {
        ber::the_first_of_its_tag_is_found(elements, 1);
    } else {
        ber::the_first_of_its_tag_is_found(elements, 0);
    }
}

/// The answer to a write says what stands on the wire: success where it is
/// empty under `[1]` or NULL, and under `[0]` the data access error, whatever
/// its number. Anything else is refused, and the error says why.
pub proof fn an_answer_to_a_write_says_what_stands_on_the_wire(
    octets: Seq<u8>,
    contents: Seq<u8>,
    identifier: Seq<u8>,
    served: Seq<u8>,
    invoke: u32,
    body: Seq<u8>,
)
    requires
        ber::first_element(octets) == Ok::<(u8, Seq<u8>, Seq<u8>), ProtocolError>(
            (0xa1u8, contents, Seq::empty()),
        ),
        ber::first_element(contents) == Ok::<(u8, Seq<u8>, Seq<u8>), ProtocolError>(
            (0x02u8, identifier, served),
        ),
        1 <= identifier.len() <= 8,
        octets::signed_value(identifier) == invoke,
        ber::first_element(served) == Ok::<(u8, Seq<u8>, Seq<u8>), ProtocolError>(
            (0xa5u8, body, Seq::empty()),
        ),
    ensures
        pdu_of(octets) == (match ber::first_element(body) {
            Err(error) => Err(error),
            Ok((tag, contents, rest)) => if tag == 0x81 || tag == 0x05 {
                if contents.len() != 0 {
                    Err(ProtocolError::NullContents)
                } else if rest.len() != 0 {
                    Err(ProtocolError::BytesAfterElement)
                } else {
                    Ok(PduView::WriteOk { invoke })
                }
            } else if tag != 0x80 {
                Err(ProtocolError::NoWriteResult)
            } else if !(1 <= contents.len() <= 8) {
                Err(ProtocolError::IntegerWidth)
            } else if rest.len() != 0 {
                Err(ProtocolError::BytesAfterElement)
            } else {
                Ok(
                    PduView::WriteFailed { invoke, error: octets::signed_value(contents) as i64 },
                )
            },
        }),
{
    reveal(confirmed_pdu);
}

/// The answer to a read says what stands on the wire in its list `[1]`: the
/// octet string octet by octet, or under `[0]` the data access error, whatever
/// its number. Anything else is refused, and the error says why.
pub proof fn an_answer_to_a_read_says_what_stands_on_the_wire(
    octets: Seq<u8>,
    contents: Seq<u8>,
    identifier: Seq<u8>,
    served: Seq<u8>,
    invoke: u32,
    body: Seq<u8>,
)
    requires
        ber::first_element(octets) == Ok::<(u8, Seq<u8>, Seq<u8>), ProtocolError>(
            (0xa1u8, contents, Seq::empty()),
        ),
        ber::first_element(contents) == Ok::<(u8, Seq<u8>, Seq<u8>), ProtocolError>(
            (0x02u8, identifier, served),
        ),
        1 <= identifier.len() <= 8,
        octets::signed_value(identifier) == invoke,
        ber::first_element(served) == Ok::<(u8, Seq<u8>, Seq<u8>), ProtocolError>(
            (0xa4u8, body, Seq::empty()),
        ),
    ensures
        pdu_of(octets) == (match ber::first_element(body) {
            Err(error) => Err(error),
            Ok((list, results, more)) => if list != 0xa1 {
                Err(ProtocolError::Misplaced(list))
            } else if more.len() != 0 {
                Err(ProtocolError::BytesAfterElement)
            } else {
                match ber::first_element(results) {
                    Err(error) => Err(error),
                    Ok((tag, contents, rest)) => if tag != 0x89 && tag != 0x80 {
                        Err(ProtocolError::NoAccessResult)
                    } else if tag == 0x80 && !(1 <= contents.len() <= 8) {
                        Err(ProtocolError::IntegerWidth)
                    } else if rest.len() != 0 {
                        Err(ProtocolError::BytesAfterElement)
                    } else if tag == 0x89 {
                        Ok(PduView::ReadOk { invoke, data: contents })
                    } else {
                        Ok(
                            PduView::ReadFailed {
                                invoke,
                                error: octets::signed_value(contents) as i64,
                            },
                        )
                    },
                }
            },
        }),
{
    reveal(confirmed_pdu);
}

/// Nothing is taken for a write but what is laid out as one, and it carries
/// no other names and no other data than stand there.
pub proof fn only_a_write_is_taken_for_one(
    octets: Seq<u8>,
    invoke: u32,
    domain: Seq<char>,
    item: Seq<char>,
    data: Seq<u8>,
)
    requires
        pdu_of(octets) == Ok::<PduView, ProtocolError>(
            (PduView::Write { invoke, domain, item, data }),
        ),
    ensures
        ({
            let (tag, contents, rest) = ber::first_element(octets)->Ok_0;
            let (integer, identifier, served) = ber::first_element(contents)->Ok_0;
            let (service, body, after) = ber::first_element(served)->Ok_0;
            &&& ber::first_element(octets) is Ok
            &&& rest.len() == 0
            &&& ber::first_element(contents) is Ok
            &&& integer == 0x02
            &&& 1 <= identifier.len() <= 8
            &&& octets::signed_value(identifier) == invoke
            &&& ber::first_element(served) is Ok
            &&& after.len() == 0
            &&& tag == 0xa0
            &&& service == 0xa5
        }),
        ({
            let contents = ber::first_element(octets)->Ok_0.1;
            let body = ber::first_element(ber::first_element(contents)->Ok_0.2)->Ok_0.1;
            let (first, list, others) = ber::first_element(body)->Ok_0;
            let (second, list_of_data, none) = ber::first_element(others)->Ok_0;
            let (string, found, nothing) = ber::first_element(list_of_data)->Ok_0;
            &&& ber::first_element(body) is Ok
            &&& first == 0xa0
            &&& ber::first_element(others) is Ok
            &&& second == 0xa0
            &&& none.len() == 0
            &&& ber::first_element(list_of_data) is Ok
            &&& string == 0x89
            &&& found == data
            &&& nothing.len() == 0
        }),
        ({
            let contents = ber::first_element(octets)->Ok_0.1;
            let body = ber::first_element(ber::first_element(contents)->Ok_0.2)->Ok_0.1;
            let list = ber::first_element(body)->Ok_0.1;
            let (sequenced, sequence, more) = ber::first_element(list)->Ok_0;
            let (form, object_name, access) = ber::first_element(sequence)->Ok_0;
            let (accessed, _, further) = ber::first_element(access)->Ok_0;
            let (specific, domain_specific, beyond) = ber::first_element(object_name)->Ok_0;
            let names = ber::all_elements(domain_specific)->Ok_0;
            &&& ber::first_element(list) is Ok
            &&& sequenced == 0x30
            &&& more.len() == 0
            &&& ber::first_element(sequence) is Ok
            &&& form == 0xa0
            &&& access.len() > 0 ==> ber::first_element(access) is Ok && accessed == 0xa5
                && further.len() == 0
            &&& ber::first_element(object_name) is Ok
            &&& specific == 0xa1
            &&& beyond.len() == 0
            &&& ber::all_elements(domain_specific) is Ok
            &&& names.len() == 2
            &&& names[0].0 == 0x1a
            &&& names[1].0 == 0x1a
            &&& domain == text::text_of(names[0].1)
            &&& item == text::text_of(names[1].1)
        }),
{
    reveal(confirmed_pdu);
}

/// Nothing is taken for a read but what is laid out as one, and it names no
/// other variable than stands there.
pub proof fn only_a_read_is_taken_for_one(
    octets: Seq<u8>,
    invoke: u32,
    domain: Seq<char>,
    item: Seq<char>,
)
    requires
        pdu_of(octets) == Ok::<PduView, ProtocolError>(
            (PduView::Read { invoke, domain, item }),
        ),
    ensures
        ({
            let (tag, contents, rest) = ber::first_element(octets)->Ok_0;
            let (integer, identifier, served) = ber::first_element(contents)->Ok_0;
            let (service, body, after) = ber::first_element(served)->Ok_0;
            &&& ber::first_element(octets) is Ok
            &&& rest.len() == 0
            &&& ber::first_element(contents) is Ok
            &&& integer == 0x02
            &&& 1 <= identifier.len() <= 8
            &&& octets::signed_value(identifier) == invoke
            &&& ber::first_element(served) is Ok
            &&& after.len() == 0
            &&& tag == 0xa0
            &&& service == 0xa4
        }),
        ({
            let contents = ber::first_element(octets)->Ok_0.1;
            let body = ber::first_element(ber::first_element(contents)->Ok_0.2)->Ok_0.1;
            let elements = ber::all_elements(body)->Ok_0;
            let (first, list, others) = ber::first_element(elements.last().1)->Ok_0;
            &&& ber::all_elements(body) is Ok
            &&& elements.len() == 1 || (elements.len() == 2 && elements[0].0 == 0x80
                && elements[0].1.len() == 1)
            &&& elements.last().0 == 0xa1
            &&& ber::first_element(elements.last().1) is Ok
            &&& first == 0xa0
            &&& others.len() == 0
        }),
        ({
            let contents = ber::first_element(octets)->Ok_0.1;
            let body = ber::first_element(ber::first_element(contents)->Ok_0.2)->Ok_0.1;
            let list = ber::first_element(ber::all_elements(body)->Ok_0.last().1)->Ok_0.1;
            let (sequenced, sequence, more) = ber::first_element(list)->Ok_0;
            let (form, object_name, access) = ber::first_element(sequence)->Ok_0;
            let (accessed, _, further) = ber::first_element(access)->Ok_0;
            let (specific, domain_specific, beyond) = ber::first_element(object_name)->Ok_0;
            let names = ber::all_elements(domain_specific)->Ok_0;
            &&& ber::first_element(list) is Ok
            &&& sequenced == 0x30
            &&& more.len() == 0
            &&& ber::first_element(sequence) is Ok
            &&& form == 0xa0
            &&& access.len() > 0 ==> ber::first_element(access) is Ok && accessed == 0xa5
                && further.len() == 0
            &&& ber::first_element(object_name) is Ok
            &&& specific == 0xa1
            &&& beyond.len() == 0
            &&& ber::all_elements(domain_specific) is Ok
            &&& names.len() == 2
            &&& names[0].0 == 0x1a
            &&& names[1].0 == 0x1a
            &&& domain == text::text_of(names[0].1)
            &&& item == text::text_of(names[1].1)
        }),
{
    reveal(confirmed_pdu);
    let contents = ber::first_element(octets)->Ok_0.1;
    let body = ber::first_element(ber::first_element(contents)->Ok_0.2)->Ok_0.1;
    let elements = ber::all_elements(body)->Ok_0;
    if elements.len() == 2 {
        ber::the_first_of_its_tag_is_found(elements, 1);
    } else {
        ber::the_first_of_its_tag_is_found(elements, 0);
    }
}

/// A PDU that is an answer to a read or a write stands under the tags of one.
pub proof fn only_an_answer_is_taken_for_one(octets: Seq<u8>)
    requires
        pdu_of(octets) is Ok,
        ({
            let pdu = pdu_of(octets)->Ok_0;
            pdu is WriteOk || pdu is WriteFailed || pdu is ReadOk || pdu is ReadFailed
        }),
    ensures
        ({
            let pdu = pdu_of(octets)->Ok_0;
            let invoke = pdu.invoke()->Some_0;
            let (tag, contents, rest) = ber::first_element(octets)->Ok_0;
            let (integer, identifier, served) = ber::first_element(contents)->Ok_0;
            let (service, body, after) = ber::first_element(served)->Ok_0;
            &&& ber::first_element(octets) is Ok
            &&& rest.len() == 0
            &&& ber::first_element(contents) is Ok
            &&& integer == 0x02
            &&& 1 <= identifier.len() <= 8
            &&& octets::signed_value(identifier) == invoke
            &&& ber::first_element(served) is Ok
            &&& after.len() == 0
            &&& tag == 0xa1
            &&& service == (if pdu is WriteOk || pdu is WriteFailed {
                0xa5u8
            } else {
                0xa4u8
            })
        }),
{
    reveal(confirmed_pdu);
}

/// A list that does not hold what a request asks for is refused, and the
/// error says why.
pub proof fn a_list_out_of_shape_is_refused(list: Seq<u8>, tag: u8)
    ensures
        match ber::first_element(list) {
            Err(error) => {
                &&& only_element(list, tag) == Err::<Seq<u8>, ProtocolError>(error)
                &&& octet_string_in(list) == Err::<Seq<u8>, ProtocolError>(error)
            },
            Ok((found, contents, rest)) => {
                &&& only_element(list, tag) == (if found != tag {
                    Err(ProtocolError::Misplaced(found))
                } else if rest.len() > 0 {
                    Err(ProtocolError::BytesAfterElement)
                } else {
                    Ok(contents)
                })
                &&& octet_string_in(list) == (if found != 0x89 {
                    Err(ProtocolError::NotOctetString)
                } else if rest.len() > 0 {
                    Err(ProtocolError::BytesAfterElement)
                } else {
                    Ok(contents)
                })
            },
        },
{
}

} // verus!
