//! GOOSE, IEC 61850-8-1 clause 18: the generic object oriented substation
//! event, one publisher's state multicast on raw Ethernet to every
//! subscriber on the bay, repeated with a rising sequence number until the
//! state changes and the state number rises instead.
//!
//! The frame is `EtherType` `0x88b8`, an application identifier, a length,
//! two reserved words, and the goosePDU — `[APPLICATION 1]` — whose twelve
//! context-tagged fields name the control block, the data set, the time,
//! the two numbers, and at last `allData`: here, octet strings.

use vstd::prelude::*;
use vstd::slice::{slice_subrange, slice_to_vec};
use vstd::utf8;

use crate::ber;
use crate::error::ProtocolError;
use crate::octets;
use crate::text;

verus! {

/// The `EtherType` of every GOOSE frame.
pub const ETHERTYPE: u16 = 0x88b8;

/// The first of the multicast addresses IEC 61850-8-1 reserves for GOOSE.
pub const MULTICAST: [u8; 6] = [0x01, 0x0c, 0xcd, 0x01, 0x00, 0x00];

/// `[APPLICATION 1]`, constructed.
pub const GOOSE_PDU: u8 = 0x61;

/// `[9]`, primitive.
pub const OCTET_STRING_DATA: u8 = 0x89;

/// An Ethernet address.
#[derive(Clone, Copy, Debug, PartialEq, Eq)]
pub struct Mac(pub [u8; 6]);

/// What an Ethernet frame carries and where it goes.
#[derive(Clone, Debug, PartialEq, Eq)]
pub struct Frame {
    pub destination: Mac,
    pub source: Mac,
    pub ethertype: u16,
    pub payload: Vec<u8>,
}

/// One GOOSE message.
#[derive(Clone, Debug, PartialEq, Eq)]
pub struct Goose {
    pub app_id: u16,
    pub gocb_ref: String,
    pub time_allowed_to_live: u32,
    pub dat_set: String,
    pub go_id: String,
    /// The UTC time as the eight bytes IEC 61850 lays them out.
    pub time: [u8; 8],
    pub st_num: u32,
    pub sq_num: u32,
    pub simulation: bool,
    pub conf_rev: u32,
    pub nds_com: bool,
    /// The data set's entries, every one an octet string.
    pub data: Vec<Vec<u8>>,
}

/// What a GOOSE message says.
#[verifier::ext_equal]
pub struct GooseView {
    pub app_id: u16,
    pub gocb_ref: Seq<char>,
    pub time_allowed_to_live: u32,
    pub dat_set: Seq<char>,
    pub go_id: Seq<char>,
    pub time: Seq<u8>,
    pub st_num: u32,
    pub sq_num: u32,
    pub simulation: bool,
    pub conf_rev: u32,
    pub nds_com: bool,
    pub data: Seq<Seq<u8>>,
}

/// Entries as sequences.
pub open spec fn entries_view(data: Seq<Vec<u8>>) -> Seq<Seq<u8>> {
    data.map_values(|entry: Vec<u8>| entry@)
}

impl View for Goose {
    type V = GooseView;

    open spec fn view(&self) -> GooseView {
        GooseView {
            app_id: self.app_id,
            gocb_ref: self.gocb_ref@,
            time_allowed_to_live: self.time_allowed_to_live,
            dat_set: self.dat_set@,
            go_id: self.go_id@,
            time: self.time@,
            st_num: self.st_num,
            sq_num: self.sq_num,
            simulation: self.simulation,
            conf_rev: self.conf_rev,
            nds_com: self.nds_com,
            data: entries_view(self.data@),
        }
    }
}

/// A decoded message as what it says.
pub open spec fn decoded_view(decoded: Result<Goose, ProtocolError>) -> Result<
    GooseView,
    ProtocolError,
> {
    match decoded {
        Ok(message) => Ok(message@),
        Err(error) => Err(error),
    }
}

/// Two bytes, the most significant first.
pub open spec fn word_octets(word: u16) -> Seq<u8> {
    seq![(word / 256) as u8, (word % 256) as u8]
}

/// The one octet of a BOOLEAN.
pub open spec fn flag_octets(flag: bool) -> Seq<u8> {
    seq![if flag { 0xffu8 } else { 0x00u8 }]
}

/// `number`, or `limit` where it is over it.
pub open spec fn at_most(number: nat, limit: nat) -> nat {
    if number <= limit {
        number
    } else {
        limit
    }
}

/// The entries of a data set as elements, every one an octet string.
pub open spec fn entry_elements(data: Seq<Seq<u8>>) -> Seq<(u8, Seq<u8>)> {
    data.map_values(|entry: Seq<u8>| (OCTET_STRING_DATA, entry))
}

/// The fields of a goosePDU as elements, in order.
pub open spec fn field_elements(message: GooseView) -> Seq<(u8, Seq<u8>)> {
    seq![
        (ber::context_tag(0, false), utf8::encode_utf8(message.gocb_ref)),
        (
            ber::context_tag(1, false),
            octets::integer_octets(message.time_allowed_to_live as int),
        ),
        (ber::context_tag(2, false), utf8::encode_utf8(message.dat_set)),
        (ber::context_tag(3, false), utf8::encode_utf8(message.go_id)),
        (ber::context_tag(4, false), message.time),
        (ber::context_tag(5, false), octets::integer_octets(message.st_num as int)),
        (ber::context_tag(6, false), octets::integer_octets(message.sq_num as int)),
        (ber::context_tag(7, false), flag_octets(message.simulation)),
        (ber::context_tag(8, false), octets::integer_octets(message.conf_rev as int)),
        (ber::context_tag(9, false), flag_octets(message.nds_com)),
        (
            ber::context_tag(10, false),
            octets::integer_octets(at_most(message.data.len(), i64::MAX as nat) as int),
        ),
        (ber::context_tag(11, true), ber::elements_octets(entry_elements(message.data))),
    ]
}

/// The goosePDU of a message.
pub open spec fn pdu_octets(message: GooseView) -> Seq<u8> {
    ber::element_octets(GOOSE_PDU, ber::elements_octets(field_elements(message)))
}

/// The payload of a message's frame: application identifier, length (the
/// payload's own, or what two bytes can say where it is over that), two
/// reserved words, the PDU.
pub open spec fn payload_octets(message: GooseView) -> Seq<u8> {
    let pdu = pdu_octets(message);
    word_octets(message.app_id) + word_octets(
        at_most(8 + pdu.len(), u16::MAX as nat) as u16,
    ) + seq![0u8, 0, 0, 0] + pdu
}

/// The contents of the field `[n]`.
pub open spec fn field(fields: Seq<(u8, Seq<u8>)>, n: u8) -> Result<Seq<u8>, ProtocolError> {
    ber::first_tagged(fields, ber::context_tag(n, false))
}

/// The number in the field `[n]`.
pub open spec fn number_field(fields: Seq<(u8, Seq<u8>)>, n: u8) -> Result<u32, ProtocolError> {
    match field(fields, n) {
        Err(error) => Err(error),
        Ok(contents) => match ber::integer_value(contents) {
            Err(error) => Err(error),
            Ok(value) => if 0 <= value <= u32::MAX {
                Ok(value as u32)
            } else {
                Err(ProtocolError::NumberRange)
            },
        },
    }
}

/// The text in the field `[n]`.
pub open spec fn text_field(fields: Seq<(u8, Seq<u8>)>, n: u8) -> Result<
    Seq<char>,
    ProtocolError,
> {
    match field(fields, n) {
        Err(error) => Err(error),
        Ok(contents) => Ok(text::text_of(contents)),
    }
}

/// The flag in the field `[n]`: set where its first octet is not zero.
pub open spec fn flag_field(fields: Seq<(u8, Seq<u8>)>, n: u8) -> Result<bool, ProtocolError> {
    match field(fields, n) {
        Err(error) => Err(error),
        Ok(contents) => Ok(contents.len() > 0 && contents[0] != 0),
    }
}

/// The time in the field `[4]`: eight octets.
pub open spec fn time_field(fields: Seq<(u8, Seq<u8>)>) -> Result<Seq<u8>, ProtocolError> {
    match field(fields, 4) {
        Err(error) => Err(error),
        Ok(contents) => if contents.len() == 8 {
            Ok(contents)
        } else {
            Err(ProtocolError::TimeWidth)
        },
    }
}

/// The entries of `allData [11]`, every one an octet string.
pub open spec fn data_field(fields: Seq<(u8, Seq<u8>)>) -> Result<Seq<Seq<u8>>, ProtocolError> {
    match ber::first_tagged(fields, ber::context_tag(11, true)) {
        Err(error) => Err(error),
        Ok(contents) => match ber::all_elements(contents) {
            Err(error) => Err(error),
            Ok(entries) => if forall|i: int|
                0 <= i < entries.len() ==> (#[trigger] entries[i]).0 == OCTET_STRING_DATA {
                Ok(entries.map_values(|entry: (u8, Seq<u8>)| entry.1))
            } else {
                Err(ProtocolError::EntryNotOctetString)
            },
        },
    }
}

/// The message of these fields. Where several are wrong, the first in the
/// order time, entries, their number, and then the fields as they stand,
/// says so.
pub open spec fn message_of_fields(app_id: u16, fields: Seq<(u8, Seq<u8>)>) -> Result<
    GooseView,
    ProtocolError,
> {
    let time = time_field(fields);
    let data = data_field(fields);
    let count = number_field(fields, 10);
    let gocb_ref = text_field(fields, 0);
    let time_allowed_to_live = number_field(fields, 1);
    let dat_set = text_field(fields, 2);
    let go_id = text_field(fields, 3);
    let st_num = number_field(fields, 5);
    let sq_num = number_field(fields, 6);
    let simulation = flag_field(fields, 7);
    let conf_rev = number_field(fields, 8);
    let nds_com = flag_field(fields, 9);
    if time is Err {
        Err(time->Err_0)
    } else if data is Err {
        Err(data->Err_0)
    } else if count is Err {
        Err(count->Err_0)
    } else if count->Ok_0 != at_most(data->Ok_0.len(), u32::MAX as nat) {
        Err(ProtocolError::EntryCount)
    } else if gocb_ref is Err {
        Err(gocb_ref->Err_0)
    } else if time_allowed_to_live is Err {
        Err(time_allowed_to_live->Err_0)
    } else if dat_set is Err {
        Err(dat_set->Err_0)
    } else if go_id is Err {
        Err(go_id->Err_0)
    } else if st_num is Err {
        Err(st_num->Err_0)
    } else if sq_num is Err {
        Err(sq_num->Err_0)
    } else if simulation is Err {
        Err(simulation->Err_0)
    } else if conf_rev is Err {
        Err(conf_rev->Err_0)
    } else if nds_com is Err {
        Err(nds_com->Err_0)
    } else {
        Ok(
            GooseView {
                app_id,
                gocb_ref: gocb_ref->Ok_0,
                time_allowed_to_live: time_allowed_to_live->Ok_0,
                dat_set: dat_set->Ok_0,
                go_id: go_id->Ok_0,
                time: time->Ok_0,
                st_num: st_num->Ok_0,
                sq_num: sq_num->Ok_0,
                simulation: simulation->Ok_0,
                conf_rev: conf_rev->Ok_0,
                nds_com: nds_com->Ok_0,
                data: data->Ok_0,
            },
        )
    }
}

/// The message that `payload` carries.
pub open spec fn message_of(payload: Seq<u8>) -> Result<GooseView, ProtocolError> {
    if payload.len() < 8 {
        Err(ProtocolError::ShortHeader)
    } else if payload[2] * 256 + payload[3] != payload.len() {
        Err(ProtocolError::PayloadLength)
    } else {
        match ber::first_element(payload.skip(8)) {
            Err(error) => Err(error),
            Ok((tag, contents, _)) => if tag != GOOSE_PDU {
                Err(ProtocolError::NotGoosePdu)
            } else {
                match ber::all_elements(contents) {
                    Err(error) => Err(error),
                    Ok(fields) => message_of_fields(
                        (payload[0] * 256 + payload[1]) as u16,
                        fields,
                    ),
                }
            },
        }
    }
}

/// The message that a frame carries, or nothing where it is not GOOSE.
pub open spec fn message_in_frame(ethertype: u16, payload: Seq<u8>) -> Result<
    Option<GooseView>,
    ProtocolError,
> {
    if ethertype != ETHERTYPE {
        Ok(None)
    } else {
        match message_of(payload) {
            Ok(message) => Ok(Some(message)),
            Err(error) => Err(error),
        }
    }
}

impl Goose {
    /// The frame's payload: application identifier, length, reserved words,
    /// the PDU.
    pub fn encode(&self) -> (payload: Vec<u8>)
        ensures
            payload@ == payload_octets(self@),
    {
        let fields = self.fields();
        let pdu = ber::tlv(GOOSE_PDU, fields.as_slice());
        let length: u16 = if pdu.len() <= 65527 {
            8 + pdu.len() as u16
        } else {
            65535
        };
        let mut out: Vec<u8> = Vec::new();
        out.push((self.app_id / 256) as u8);
        out.push((self.app_id % 256) as u8);
        out.push((length / 256) as u8);
        out.push((length % 256) as u8);
        out.push(0);
        out.push(0);
        out.push(0);
        out.push(0);
        out.extend_from_slice(pdu.as_slice());
        assert(out@ =~= payload_octets(self@));
        out
    }

    /// The message `payload` carries. A payload shorter than its header, a
    /// length that is not the payload's, a PDU that is not a goosePDU, a
    /// field missing, and data that is not octet strings are errors.
    pub fn decode(payload: &[u8]) -> (message: Result<Goose, ProtocolError>)
        ensures
            decoded_view(message) == message_of(payload@),
    {
        let size: usize = payload.len();
        if size < 8 {
            return Err(ProtocolError::ShortHeader);
        }
        let length: usize = payload[2] as usize * 256 + payload[3] as usize;
        if length != size {
            return Err(ProtocolError::PayloadLength);
        }
        let after_header = slice_subrange(payload, 8, size);
        assert(after_header@ =~= payload@.skip(8));
        let (tag, contents, _) = match ber::read(after_header) {
            Ok(element) => element,
            Err(e) => return Err(e),
        };
        if tag != GOOSE_PDU {
            return Err(ProtocolError::NotGoosePdu);
        }
        let fields = match ber::read_all(contents) {
            Ok(elements) => elements,
            Err(e) => return Err(e),
        };
        let app_id: u16 = payload[0] as u16 * 256 + payload[1] as u16;
        decode_fields(app_id, fields.as_slice())
    }

    /// The frame that carries the message from `source` to the GOOSE
    /// multicast. How much one frame carries is for the link to say.
    pub fn frame(&self, source: Mac) -> (frame: Frame)
        ensures
            frame.destination == Mac(MULTICAST),
            frame.source == source,
            frame.ethertype == ETHERTYPE,
            frame.payload@ == payload_octets(self@),
    {
        Frame {
            destination: Mac(MULTICAST),
            source,
            ethertype: ETHERTYPE,
            payload: self.encode(),
        }
    }

    /// The message a frame carries, or `None` where the frame is not GOOSE.
    /// Errors are those of [`Goose::decode`].
    pub fn from_frame(frame: &Frame) -> (message: Result<Option<Goose>, ProtocolError>)
        ensures
            match message {
                Ok(None) => message_in_frame(frame.ethertype, frame.payload@) == Ok::<
                    Option<GooseView>,
                    ProtocolError,
                >(None),
                Ok(Some(found)) => message_in_frame(frame.ethertype, frame.payload@) == Ok::<
                    Option<GooseView>,
                    ProtocolError,
                >(Some(found@)),
                Err(e) => message_in_frame(frame.ethertype, frame.payload@) == Err::<
                    Option<GooseView>,
                    ProtocolError,
                >(e),
            },
    {
        if frame.ethertype != ETHERTYPE {
            return Ok(None);
        }
        match Goose::decode(frame.payload.as_slice()) {
            Ok(message) => Ok(Some(message)),
            Err(e) => Err(e),
        }
    }

    /// The fields, one after another.
    fn fields(&self) -> (fields: Vec<u8>)
        ensures
            fields@ == ber::elements_octets(field_elements(self@)),
    {
        let ghost elements = field_elements(self@);
        let all_data = self.all_data();
        let entries: i64 = if self.data.len() as u64 <= i64::MAX as u64 {
            self.data.len() as i64
        } else {
            i64::MAX
        };
        let mut fields: Vec<u8> = Vec::new();
        assert(fields@ =~= ber::elements_octets(elements.take(0)));
        push_field(&mut fields, 0, false, self.gocb_ref.as_str().as_bytes());
        proof {
            ber::lemma_elements_octets_step(elements, 0);
        }
        push_number(&mut fields, 1, self.time_allowed_to_live as i64);
        proof {
            ber::lemma_elements_octets_step(elements, 1);
        }
        push_field(&mut fields, 2, false, self.dat_set.as_str().as_bytes());
        proof {
            ber::lemma_elements_octets_step(elements, 2);
        }
        push_field(&mut fields, 3, false, self.go_id.as_str().as_bytes());
        proof {
            ber::lemma_elements_octets_step(elements, 3);
        }
        push_field(&mut fields, 4, false, self.time.as_slice());
        proof {
            ber::lemma_elements_octets_step(elements, 4);
        }
        push_number(&mut fields, 5, self.st_num as i64);
        proof {
            ber::lemma_elements_octets_step(elements, 5);
        }
        push_number(&mut fields, 6, self.sq_num as i64);
        proof {
            ber::lemma_elements_octets_step(elements, 6);
        }
        push_flag(&mut fields, 7, self.simulation);
        proof {
            ber::lemma_elements_octets_step(elements, 7);
        }
        push_number(&mut fields, 8, self.conf_rev as i64);
        proof {
            ber::lemma_elements_octets_step(elements, 8);
        }
        push_flag(&mut fields, 9, self.nds_com);
        proof {
            ber::lemma_elements_octets_step(elements, 9);
        }
        push_number(&mut fields, 10, entries);
        proof {
            ber::lemma_elements_octets_step(elements, 10);
        }
        push_field(&mut fields, 11, true, all_data.as_slice());
        proof {
            ber::lemma_elements_octets_step(elements, 11);
        }
        assert(elements.take(12) =~= elements);
        fields
    }

    /// The entries, one octet string after another.
    fn all_data(&self) -> (all_data: Vec<u8>)
        ensures
            all_data@ == ber::elements_octets(entry_elements(entries_view(self.data@))),
    {
        let ghost elements = entry_elements(entries_view(self.data@));
        let mut all_data: Vec<u8> = Vec::new();
        let mut i: usize = 0;
        while i < self.data.len()
            invariant
                i <= self.data@.len(),
                elements == entry_elements(entries_view(self.data@)),
                all_data@ == ber::elements_octets(elements.take(i as int)),
            decreases self.data@.len() - i,
        {
            let entry = ber::tlv(OCTET_STRING_DATA, self.data[i].as_slice());
            all_data.extend_from_slice(entry.as_slice());
            proof {
                ber::lemma_elements_octets_step(elements, i as int);
            }
            i = i + 1;
        }
        assert(elements.take(i as int) =~= elements);
        all_data
    }
}

/// Append the field `[n]`.
fn push_field(out: &mut Vec<u8>, n: u8, constructed: bool, contents: &[u8])
    ensures
        final(out)@ == old(out)@ + ber::element_octets(
            ber::context_tag(n, constructed),
            contents@,
        ),
{
    let element = ber::tlv(ber::context(n, constructed), contents);
    out.extend_from_slice(element.as_slice());
}

/// Append the field `[n]` that holds a number.
fn push_number(out: &mut Vec<u8>, n: u8, number: i64)
    ensures
        final(out)@ == old(out)@ + ber::element_octets(
            ber::context_tag(n, false),
            octets::integer_octets(number as int),
        ),
{
    let contents = ber::integer(number);
    push_field(out, n, false, contents.as_slice());
}

/// Append the field `[n]` that holds a flag.
fn push_flag(out: &mut Vec<u8>, n: u8, flag: bool)
    ensures
        final(out)@ == old(out)@ + ber::element_octets(
            ber::context_tag(n, false),
            flag_octets(flag),
        ),
{
    let octet: u8 = if flag {
        0xff
    } else {
        0x00
    };
    let contents: Vec<u8> = vec![octet];
    assert(contents@ =~= flag_octets(flag));
    push_field(out, n, false, contents.as_slice());
}

/// The contents of the field `[n]`.
fn find_field<'a>(fields: &[(u8, &'a [u8])], n: u8) -> (contents: Result<&'a [u8], ProtocolError>)
    ensures
        match contents {
            Ok(found) => field(ber::elements_view(fields@), n) == Ok::<Seq<u8>, ProtocolError>(
                found@,
            ),
            Err(e) => field(ber::elements_view(fields@), n) == Err::<Seq<u8>, ProtocolError>(e),
        },
{
    ber::find(fields, ber::context(n, false))
}

/// The number in the field `[n]`.
fn read_number(fields: &[(u8, &[u8])], n: u8) -> (number: Result<u32, ProtocolError>)
    ensures
        number == number_field(ber::elements_view(fields@), n),
{
    let contents = match find_field(fields, n) {
        Ok(found) => found,
        Err(e) => return Err(e),
    };
    match ber::read_integer(contents) {
        Ok(value) => if 0 <= value && value <= u32::MAX as i64 {
            Ok(value as u32)
        } else {
            Err(ProtocolError::NumberRange)
        },
        Err(e) => Err(e),
    }
}

/// The text in the field `[n]`.
fn read_text(fields: &[(u8, &[u8])], n: u8) -> (string: Result<String, ProtocolError>)
    ensures
        match string {
            Ok(found) => text_field(ber::elements_view(fields@), n) == Ok::<
                Seq<char>,
                ProtocolError,
            >(found@),
            Err(e) => text_field(ber::elements_view(fields@), n) == Err::<
                Seq<char>,
                ProtocolError,
            >(e),
        },
{
    match find_field(fields, n) {
        Ok(contents) => Ok(text::lossy_text(contents)),
        Err(e) => Err(e),
    }
}

/// The flag in the field `[n]`.
fn read_flag(fields: &[(u8, &[u8])], n: u8) -> (flag: Result<bool, ProtocolError>)
    ensures
        flag == flag_field(ber::elements_view(fields@), n),
{
    match find_field(fields, n) {
        Ok(contents) => Ok(contents.len() > 0 && contents[0] != 0),
        Err(e) => Err(e),
    }
}

/// The time in the field `[4]`.
fn read_time(fields: &[(u8, &[u8])]) -> (time: Result<[u8; 8], ProtocolError>)
    ensures
        match time {
            Ok(found) => time_field(ber::elements_view(fields@)) == Ok::<Seq<u8>, ProtocolError>(
                found@,
            ),
            Err(e) => time_field(ber::elements_view(fields@)) == Err::<Seq<u8>, ProtocolError>(e),
        },
{
    let stamp = match find_field(fields, 4) {
        Ok(contents) => contents,
        Err(e) => return Err(e),
    };
    if stamp.len() != 8 {
        return Err(ProtocolError::TimeWidth);
    }
    let time: [u8; 8] = [
        stamp[0],
        stamp[1],
        stamp[2],
        stamp[3],
        stamp[4],
        stamp[5],
        stamp[6],
        stamp[7],
    ];
    assert(time@ =~= stamp@);
    Ok(time)
}

/// The entries of `allData [11]`.
fn read_data(fields: &[(u8, &[u8])]) -> (data: Result<Vec<Vec<u8>>, ProtocolError>)
    ensures
        match data {
            Ok(found) => data_field(ber::elements_view(fields@)) == Ok::<
                Seq<Seq<u8>>,
                ProtocolError,
            >(entries_view(found@)),
            Err(e) => data_field(ber::elements_view(fields@)) == Err::<
                Seq<Seq<u8>>,
                ProtocolError,
            >(e),
        },
{
    let contents = match ber::find(fields, ber::context(11, true)) {
        Ok(found) => found,
        Err(e) => return Err(e),
    };
    let entries = match ber::read_all(contents) {
        Ok(elements) => elements,
        Err(e) => return Err(e),
    };
    let ghost elements = ber::elements_view(entries@);
    let mut data: Vec<Vec<u8>> = Vec::new();
    let mut i: usize = 0;
    while i < entries.len()
        invariant
            i <= entries@.len(),
            elements == ber::elements_view(entries@),
            data@.len() == i,
            forall|j: int| 0 <= j < i ==> (#[trigger] elements[j]).0 == OCTET_STRING_DATA,
            forall|j: int| 0 <= j < i ==> (#[trigger] data@[j])@ == elements[j].1,
            data_field(ber::elements_view(fields@)) == (if forall|j: int|
                0 <= j < elements.len() ==> (#[trigger] elements[j]).0 == OCTET_STRING_DATA {
                Ok(elements.map_values(|entry: (u8, Seq<u8>)| entry.1))
            } else {
                Err(ProtocolError::EntryNotOctetString)
            }),
        decreases entries@.len() - i,
    {
        assert(elements[i as int].0 == entries@[i as int].0);
        if entries[i].0 != OCTET_STRING_DATA {
            return Err(ProtocolError::EntryNotOctetString);
        }
        data.push(slice_to_vec(entries[i].1));
        i = i + 1;
    }
    assert(entries_view(data@) =~= elements.map_values(|entry: (u8, Seq<u8>)| entry.1));
    Ok(data)
}

/// The message of these fields.
fn decode_fields(app_id: u16, fields: &[(u8, &[u8])]) -> (message: Result<Goose, ProtocolError>)
    ensures
        decoded_view(message) == message_of_fields(app_id, ber::elements_view(fields@)),
{
    let time = match read_time(fields) {
        Ok(found) => found,
        Err(e) => return Err(e),
    };
    let data = match read_data(fields) {
        Ok(found) => found,
        Err(e) => return Err(e),
    };
    let count: u32 = match read_number(fields, 10) {
        Ok(found) => found,
        Err(e) => return Err(e),
    };
    let entries: u32 = if data.len() as u64 <= u32::MAX as u64 {
        data.len() as u32
    } else {
        u32::MAX
    };
    if count != entries {
        return Err(ProtocolError::EntryCount);
    }
    let gocb_ref = match read_text(fields, 0) {
        Ok(found) => found,
        Err(e) => return Err(e),
    };
    let time_allowed_to_live: u32 = match read_number(fields, 1) {
        Ok(found) => found,
        Err(e) => return Err(e),
    };
    let dat_set = match read_text(fields, 2) {
        Ok(found) => found,
        Err(e) => return Err(e),
    };
    let go_id = match read_text(fields, 3) {
        Ok(found) => found,
        Err(e) => return Err(e),
    };
    let st_num: u32 = match read_number(fields, 5) {
        Ok(found) => found,
        Err(e) => return Err(e),
    };
    let sq_num: u32 = match read_number(fields, 6) {
        Ok(found) => found,
        Err(e) => return Err(e),
    };
    let simulation = match read_flag(fields, 7) {
        Ok(found) => found,
        Err(e) => return Err(e),
    };
    let conf_rev: u32 = match read_number(fields, 8) {
        Ok(found) => found,
        Err(e) => return Err(e),
    };
    let nds_com = match read_flag(fields, 9) {
        Ok(found) => found,
        Err(e) => return Err(e),
    };
    Ok(
        Goose {
            app_id,
            gocb_ref,
            time_allowed_to_live,
            dat_set,
            go_id,
            time,
            st_num,
            sq_num,
            simulation,
            conf_rev,
            nds_com,
            data,
        },
    )
}

proof fn lemma_field_is_found(message: GooseView, i: int)
    requires
        0 <= i < 12,
    ensures
        ber::first_tagged(field_elements(message), field_elements(message)[i].0) == Ok::<
            Seq<u8>,
            ProtocolError,
        >(field_elements(message)[i].1),
{
    ber::the_first_of_its_tag_is_found(field_elements(message), i);
}

proof fn lemma_data_reads_back(message: GooseView)
    requires
        ber::elements_octets(entry_elements(message.data)).len() <= u32::MAX,
    ensures
        data_field(field_elements(message)) == Ok::<Seq<Seq<u8>>, ProtocolError>(message.data),
{
    let entries = entry_elements(message.data);
    lemma_field_is_found(message, 11);
    assert forall|i: int| 0 <= i < entries.len() implies ber::readable(
        (#[trigger] entries[i]).0,
        entries[i].1,
    ) by {
        ber::lemma_contents_are_shorter(entries, i);
    }
    ber::elements_read_back(entries);
    assert(entries.map_values(|entry: (u8, Seq<u8>)| entry.1) =~= message.data);
}

proof fn lemma_numbers_read_back(message: GooseView)
    ensures
        number_field(field_elements(message), 1) == Ok::<u32, ProtocolError>(
            message.time_allowed_to_live,
        ),
        number_field(field_elements(message), 5) == Ok::<u32, ProtocolError>(message.st_num),
        number_field(field_elements(message), 6) == Ok::<u32, ProtocolError>(message.sq_num),
        number_field(field_elements(message), 8) == Ok::<u32, ProtocolError>(message.conf_rev),
        message.data.len() <= u32::MAX ==> number_field(field_elements(message), 10) == Ok::<
            u32,
            ProtocolError,
        >(message.data.len() as u32),
{
    lemma_field_is_found(message, 1);
    lemma_field_is_found(message, 5);
    lemma_field_is_found(message, 6);
    lemma_field_is_found(message, 8);
    lemma_field_is_found(message, 10);
    ber::an_integer_reads_back(message.time_allowed_to_live as i64);
    ber::an_integer_reads_back(message.st_num as i64);
    ber::an_integer_reads_back(message.sq_num as i64);
    ber::an_integer_reads_back(message.conf_rev as i64);
    if message.data.len() <= u32::MAX {
        ber::an_integer_reads_back(message.data.len() as i64);
    }
}

proof fn lemma_texts_and_flags_read_back(message: GooseView)
    ensures
        text_field(field_elements(message), 0) == Ok::<Seq<char>, ProtocolError>(
            message.gocb_ref,
        ),
        text_field(field_elements(message), 2) == Ok::<Seq<char>, ProtocolError>(message.dat_set),
        text_field(field_elements(message), 3) == Ok::<Seq<char>, ProtocolError>(message.go_id),
        field(field_elements(message), 4) == Ok::<Seq<u8>, ProtocolError>(message.time),
        flag_field(field_elements(message), 7) == Ok::<bool, ProtocolError>(message.simulation),
        flag_field(field_elements(message), 9) == Ok::<bool, ProtocolError>(message.nds_com),
{
    lemma_field_is_found(message, 0);
    lemma_field_is_found(message, 2);
    lemma_field_is_found(message, 3);
    lemma_field_is_found(message, 4);
    lemma_field_is_found(message, 7);
    lemma_field_is_found(message, 9);
    text::text_reads_back(message.gocb_ref);
    text::text_reads_back(message.dat_set);
    text::text_reads_back(message.go_id);
}

/// No data set has more entries than octets.
proof fn lemma_entries_take_octets(data: Seq<Seq<u8>>)
    ensures
        data.len() <= ber::elements_octets(entry_elements(data)).len(),
    decreases data.len(),
{
    if data.len() > 0 {
        assert(entry_elements(data).skip(1) =~= entry_elements(data.skip(1)));
        lemma_entries_take_octets(data.skip(1));
    }
}

/// A message reads back as it was written, where its payload's length fits
/// the header.
pub proof fn a_message_reads_back(message: GooseView)
    requires
        message.time.len() == 8,
        payload_octets(message).len() <= u16::MAX,
    ensures
        message_of(payload_octets(message)) == Ok::<GooseView, ProtocolError>(message),
{
    let payload = payload_octets(message);
    let fields = field_elements(message);
    let contents = ber::elements_octets(fields);
    assert(payload.skip(8) =~= pdu_octets(message));
    ber::an_element_alone_reads_back(GOOSE_PDU, contents);
    assert forall|i: int| 0 <= i < fields.len() implies ber::readable(
        (#[trigger] fields[i]).0,
        fields[i].1,
    ) by {
        ber::lemma_contents_are_shorter(fields, i);
    }
    ber::elements_read_back(fields);
    ber::lemma_contents_are_shorter(fields, 11);
    lemma_entries_take_octets(message.data);
    lemma_data_reads_back(message);
    lemma_numbers_read_back(message);
    lemma_texts_and_flags_read_back(message);
}

/// A message whose payload's length does not fit the header is refused.
pub proof fn a_message_too_long_is_refused(message: GooseView)
    requires
        payload_octets(message).len() > u16::MAX,
    ensures
        message_of(payload_octets(message)) == Err::<GooseView, ProtocolError>(
            ProtocolError::PayloadLength,
        ),
{
}

/// A payload cut short is refused, and so is one with bytes after it, up to
/// what two bytes can say.
pub proof fn a_payload_of_another_length_is_refused(message: GooseView, payload: Seq<u8>)
    requires
        payload_octets(message).len() <= u16::MAX,
        payload.len() != payload_octets(message).len(),
        forall|i: int|
            0 <= i < 4 && i < payload.len() ==> #[trigger] payload[i] == payload_octets(message)[i],
    ensures
        message_of(payload) == Err::<GooseView, ProtocolError>(
            if payload.len() < 8 {
                ProtocolError::ShortHeader
            } else {
                ProtocolError::PayloadLength
            },
        ),
{
    if payload.len() >= 8 {
        assert(payload[2] == payload_octets(message)[2]);
        assert(payload[3] == payload_octets(message)[3]);
    }
}

/// A message without one of its fields is refused.
pub proof fn a_message_without_a_field_is_refused(
    app_id: u16,
    fields: Seq<(u8, Seq<u8>)>,
    missing: u8,
)
    requires
        missing <= 11,
        forall|i: int|
            0 <= i < fields.len() ==> (#[trigger] fields[i]).0 != ber::context_tag(
                missing,
                missing == 11,
            ),
    ensures
        message_of_fields(app_id, fields) is Err,
{
    ber::a_tag_that_is_not_there_is_not_found(fields, ber::context_tag(missing, missing == 11));
}

/// A message comes back out of the frame that carries it, where its
/// payload's length fits the header.
pub proof fn a_frame_gives_back_its_message(message: GooseView)
    requires
        message.time.len() == 8,
        payload_octets(message).len() <= u16::MAX,
    ensures
        message_in_frame(ETHERTYPE, payload_octets(message)) == Ok::<
            Option<GooseView>,
            ProtocolError,
        >(Some(message)),
{
    a_message_reads_back(message);
}

/// What a message says is what its fields hold, entry by entry, and a decoded
/// one is that message or that error.
pub proof fn a_message_says_what_its_fields_hold(message: Goose, error: ProtocolError, i: int)
    ensures
        message@.app_id == message.app_id,
        message@.gocb_ref == message.gocb_ref@,
        message@.time_allowed_to_live == message.time_allowed_to_live,
        message@.dat_set == message.dat_set@,
        message@.go_id == message.go_id@,
        message@.time == message.time@,
        message@.st_num == message.st_num,
        message@.sq_num == message.sq_num,
        message@.simulation == message.simulation,
        message@.conf_rev == message.conf_rev,
        message@.nds_com == message.nds_com,
        message@.data.len() == message.data@.len(),
        0 <= i < message.data@.len() ==> message@.data[i] == message.data@[i]@,
        decoded_view(Ok(message)) == Ok::<GooseView, ProtocolError>(message@),
        decoded_view(Err(error)) == Err::<GooseView, ProtocolError>(error),
{
}

/// GOOSE has its `EtherType` and its multicast address.
pub proof fn goose_frames_have_their_numbers()
    ensures
        ETHERTYPE == 0x88b8,
        MULTICAST@ == seq![0x01u8, 0x0c, 0xcd, 0x01, 0x00, 0x00],
{
    assert(MULTICAST@ =~= seq![0x01u8, 0x0c, 0xcd, 0x01, 0x00, 0x00]);
}

/// A frame carries a message where its `EtherType` is that of GOOSE, and then
/// the one that its payload carries.
pub proof fn a_frame_carries_the_message_of_its_payload(ethertype: u16, payload: Seq<u8>)
    ensures
        ethertype != 0x88b8 ==> message_in_frame(ethertype, payload) == Ok::<
            Option<GooseView>,
            ProtocolError,
        >(None),
        ethertype == 0x88b8 ==> match message_of(payload) {
            Ok(message) => message_in_frame(ethertype, payload) == Ok::<
                Option<GooseView>,
                ProtocolError,
            >(Some(message)),
            Err(error) => message_in_frame(ethertype, payload) == Err::<
                Option<GooseView>,
                ProtocolError,
            >(error),
        },
{
}

/// The payload of a message is its application identifier, its own length or
/// the most that two octets can say, four zeros, and the goosePDU with its
/// twelve fields in order, every entry of the data set an octet string that
/// holds it octet by octet.
pub proof fn a_message_on_the_wire(message: GooseView)
    ensures
        ({
            let written = payload_octets(message);
            let entries = Seq::new(message.data.len(), |i: int| (0x89u8, message.data[i]));
            let count = if message.data.len() <= i64::MAX {
                message.data.len() as int
            } else {
                i64::MAX as int
            };
            let fields = ber::element_octets(0x80, utf8::encode_utf8(message.gocb_ref))
                + ber::element_octets(
                0x81,
                octets::integer_octets(message.time_allowed_to_live as int),
            ) + ber::element_octets(0x82, utf8::encode_utf8(message.dat_set))
                + ber::element_octets(0x83, utf8::encode_utf8(message.go_id))
                + ber::element_octets(0x84, message.time) + ber::element_octets(
                0x85,
                octets::integer_octets(message.st_num as int),
            ) + ber::element_octets(0x86, octets::integer_octets(message.sq_num as int))
                + ber::element_octets(
                0x87,
                seq![if message.simulation { 0xffu8 } else { 0x00u8 }],
            ) + ber::element_octets(0x88, octets::integer_octets(message.conf_rev as int))
                + ber::element_octets(
                0x89,
                seq![if message.nds_com { 0xffu8 } else { 0x00u8 }],
            ) + ber::element_octets(0x8a, octets::integer_octets(count)) + ber::element_octets(
                0xab,
                ber::elements_octets(entries),
            );
            &&& written.len() > 8
            &&& written[0] * 256 + written[1] == message.app_id
            &&& written[2] * 256 + written[3] == (if written.len() <= 0xffff {
                written.len() as int
            } else {
                0xffff
            })
            &&& written[4] == 0 && written[5] == 0 && written[6] == 0 && written[7] == 0
            &&& written.skip(8) == ber::element_octets(0x61, fields)
        }),
{
    let written = payload_octets(message);
    let entries = Seq::new(message.data.len(), |i: int| (0x89u8, message.data[i]));
    assert(entry_elements(message.data) =~= entries);
    assert(written.skip(8) =~= pdu_octets(message));
    lemma_fields_on_the_wire(field_elements(message));
}

proof fn lemma_fields_on_the_wire(fields: Seq<(u8, Seq<u8>)>)
    requires
        fields.len() == 12,
    ensures
        ber::elements_octets(fields) == ber::element_octets(fields[0].0, fields[0].1)
            + ber::element_octets(fields[1].0, fields[1].1) + ber::element_octets(
            fields[2].0,
            fields[2].1,
        ) + ber::element_octets(fields[3].0, fields[3].1) + ber::element_octets(
            fields[4].0,
            fields[4].1,
        ) + ber::element_octets(fields[5].0, fields[5].1) + ber::element_octets(
            fields[6].0,
            fields[6].1,
        ) + ber::element_octets(fields[7].0, fields[7].1) + ber::element_octets(
            fields[8].0,
            fields[8].1,
        ) + ber::element_octets(fields[9].0, fields[9].1) + ber::element_octets(
            fields[10].0,
            fields[10].1,
        ) + ber::element_octets(fields[11].0, fields[11].1),
{
    assert(fields.take(0) =~= Seq::empty());
    ber::lemma_elements_octets_step(fields, 0);
    ber::lemma_elements_octets_step(fields, 1);
    ber::lemma_elements_octets_step(fields, 2);
    ber::lemma_elements_octets_step(fields, 3);
    ber::lemma_elements_octets_step(fields, 4);
    ber::lemma_elements_octets_step(fields, 5);
    ber::lemma_elements_octets_step(fields, 6);
    ber::lemma_elements_octets_step(fields, 7);
    ber::lemma_elements_octets_step(fields, 8);
    ber::lemma_elements_octets_step(fields, 9);
    ber::lemma_elements_octets_step(fields, 10);
    ber::lemma_elements_octets_step(fields, 11);
    assert(Seq::<u8>::empty() + ber::element_octets(fields[0].0, fields[0].1)
        =~= ber::element_octets(fields[0].0, fields[0].1));
    assert(fields.take(12) =~= fields);
}

/// The elements under `allData [11]` of an encoded message are its entries in
/// order, each octet by octet.
pub proof fn the_entries_of_a_message_on_the_wire(message: GooseView)
    requires
        payload_octets(message).len() <= 0xffff,
    ensures
        ({
            let fields = ber::all_elements(
                ber::first_element(payload_octets(message).skip(8))->Ok_0.1,
            )->Ok_0;
            let entries = ber::all_elements(ber::first_tagged(fields, 0xab)->Ok_0)->Ok_0;
            &&& entries.len() == message.data.len()
            &&& forall|i: int|
                0 <= i < entries.len() ==> #[trigger] entries[i] == (0x89u8, message.data[i])
        }),
{
    let payload = payload_octets(message);
    let fields = field_elements(message);
    let entries = entry_elements(message.data);
    assert(payload.skip(8) =~= pdu_octets(message));
    ber::an_element_alone_reads_back(GOOSE_PDU, ber::elements_octets(fields));
    assert forall|i: int| 0 <= i < fields.len() implies ber::readable(
        (#[trigger] fields[i]).0,
        fields[i].1,
    ) by {
        ber::lemma_contents_are_shorter(fields, i);
    }
    ber::elements_read_back(fields);
    lemma_field_is_found(message, 11);
    ber::lemma_contents_are_shorter(fields, 11);
    assert forall|i: int| 0 <= i < entries.len() implies ber::readable(
        (#[trigger] entries[i]).0,
        entries[i].1,
    ) by {
        ber::lemma_contents_are_shorter(entries, i);
    }
    ber::elements_read_back(entries);
}

/// A payload is decided by its header, the length in which is its own, by the
/// goosePDU after it and by its fields. Anything else is refused, and the
/// error says why.
pub proof fn a_payload_is_decided_by_its_header(payload: Seq<u8>)
    ensures
        message_of(payload) == (if payload.len() < 8 {
            Err(ProtocolError::ShortHeader)
        } else if payload[2] * 256 + payload[3] != payload.len() {
            Err(ProtocolError::PayloadLength)
        } else {
            match ber::first_element(payload.skip(8)) {
                Err(error) => Err(error),
                Ok((tag, contents, _)) => if tag != 0x61 {
                    Err(ProtocolError::NotGoosePdu)
                } else {
                    match ber::all_elements(contents) {
                        Err(error) => Err(error),
                        Ok(fields) => message_of_fields(
                            (payload[0] * 256 + payload[1]) as u16,
                            fields,
                        ),
                    }
                },
            }
        }),
{
}

/// A message carries what stands in its fields on the wire: its numbers are
/// what their octets are worth, a flag is set where its first octet is not
/// zero, and its entries are those under `allData [11]` in order, each octet by
/// octet.
pub proof fn a_message_carries_what_stands_on_the_wire(
    app_id: u16,
    fields: Seq<(u8, Seq<u8>)>,
    gocb_ref: Seq<u8>,
    time_allowed_to_live: Seq<u8>,
    dat_set: Seq<u8>,
    go_id: Seq<u8>,
    time: Seq<u8>,
    st_num: Seq<u8>,
    sq_num: Seq<u8>,
    simulation: Seq<u8>,
    conf_rev: Seq<u8>,
    nds_com: Seq<u8>,
    count: Seq<u8>,
    all_data: Seq<u8>,
    entries: Seq<(u8, Seq<u8>)>,
)
    requires
        ber::first_tagged(fields, 0x80) == Ok::<Seq<u8>, ProtocolError>(gocb_ref),
        ber::first_tagged(fields, 0x82) == Ok::<Seq<u8>, ProtocolError>(dat_set),
        ber::first_tagged(fields, 0x83) == Ok::<Seq<u8>, ProtocolError>(go_id),
        ber::first_tagged(fields, 0x87) == Ok::<Seq<u8>, ProtocolError>(simulation),
        ber::first_tagged(fields, 0x89) == Ok::<Seq<u8>, ProtocolError>(nds_com),
        ber::first_tagged(fields, 0x81) == Ok::<Seq<u8>, ProtocolError>(time_allowed_to_live),
        1 <= time_allowed_to_live.len() <= 8,
        0 <= octets::signed_value(time_allowed_to_live) <= 0xffff_ffff,
        ber::first_tagged(fields, 0x85) == Ok::<Seq<u8>, ProtocolError>(st_num),
        1 <= st_num.len() <= 8,
        0 <= octets::signed_value(st_num) <= 0xffff_ffff,
        ber::first_tagged(fields, 0x86) == Ok::<Seq<u8>, ProtocolError>(sq_num),
        1 <= sq_num.len() <= 8,
        0 <= octets::signed_value(sq_num) <= 0xffff_ffff,
        ber::first_tagged(fields, 0x88) == Ok::<Seq<u8>, ProtocolError>(conf_rev),
        1 <= conf_rev.len() <= 8,
        0 <= octets::signed_value(conf_rev) <= 0xffff_ffff,
        ber::first_tagged(fields, 0x84) == Ok::<Seq<u8>, ProtocolError>(time),
        time.len() == 8,
        ber::first_tagged(fields, 0x8a) == Ok::<Seq<u8>, ProtocolError>(count),
        1 <= count.len() <= 8,
        ber::first_tagged(fields, 0xab) == Ok::<Seq<u8>, ProtocolError>(all_data),
        ber::all_elements(all_data) == Ok::<Seq<(u8, Seq<u8>)>, ProtocolError>(entries),
        forall|i: int| 0 <= i < entries.len() ==> (#[trigger] entries[i]).0 == 0x89,
        octets::signed_value(count) == (if entries.len() <= 0xffff_ffff {
            entries.len() as int
        } else {
            0xffff_ffff
        }),
    ensures
        message_of_fields(app_id, fields) == Ok::<GooseView, ProtocolError>(
            (GooseView {
                app_id,
                gocb_ref: text::text_of(gocb_ref),
                time_allowed_to_live: octets::signed_value(time_allowed_to_live) as u32,
                dat_set: text::text_of(dat_set),
                go_id: text::text_of(go_id),
                time,
                st_num: octets::signed_value(st_num) as u32,
                sq_num: octets::signed_value(sq_num) as u32,
                simulation: simulation.len() > 0 && simulation[0] != 0,
                conf_rev: octets::signed_value(conf_rev) as u32,
                nds_com: nds_com.len() > 0 && nds_com[0] != 0,
                data: Seq::new(entries.len(), |i: int| entries[i].1),
            }),
        ),
{
    assert(entries.map_values(|entry: (u8, Seq<u8>)| entry.1) =~= Seq::new(
        entries.len(),
        |i: int| entries[i].1,
    ));
}

/// No message carries anything but what stands in its fields on the wire.
pub proof fn a_message_carries_nothing_else(
    app_id: u16,
    fields: Seq<(u8, Seq<u8>)>,
    message: GooseView,
)
    requires
        message_of_fields(app_id, fields) == Ok::<GooseView, ProtocolError>(message),
    ensures
        message.app_id == app_id,
        ber::first_tagged(fields, 0x80) is Ok,
        message.gocb_ref == text::text_of(ber::first_tagged(fields, 0x80)->Ok_0),
        ber::first_tagged(fields, 0x82) is Ok,
        message.dat_set == text::text_of(ber::first_tagged(fields, 0x82)->Ok_0),
        ber::first_tagged(fields, 0x83) is Ok,
        message.go_id == text::text_of(ber::first_tagged(fields, 0x83)->Ok_0),
        ber::first_tagged(fields, 0x81) is Ok,
        1 <= ber::first_tagged(fields, 0x81)->Ok_0.len() <= 8,
        octets::signed_value(ber::first_tagged(fields, 0x81)->Ok_0) == message.time_allowed_to_live,
        ber::first_tagged(fields, 0x85) is Ok,
        1 <= ber::first_tagged(fields, 0x85)->Ok_0.len() <= 8,
        octets::signed_value(ber::first_tagged(fields, 0x85)->Ok_0) == message.st_num,
        ber::first_tagged(fields, 0x86) is Ok,
        1 <= ber::first_tagged(fields, 0x86)->Ok_0.len() <= 8,
        octets::signed_value(ber::first_tagged(fields, 0x86)->Ok_0) == message.sq_num,
        ber::first_tagged(fields, 0x88) is Ok,
        1 <= ber::first_tagged(fields, 0x88)->Ok_0.len() <= 8,
        octets::signed_value(ber::first_tagged(fields, 0x88)->Ok_0) == message.conf_rev,
        ber::first_tagged(fields, 0x87) is Ok,
        message.simulation <==> ber::first_tagged(fields, 0x87)->Ok_0.len() > 0 && ber::first_tagged(
            fields,
            0x87,
        )->Ok_0[0] != 0,
        ber::first_tagged(fields, 0x89) is Ok,
        message.nds_com <==> ber::first_tagged(fields, 0x89)->Ok_0.len() > 0 && ber::first_tagged(
            fields,
            0x89,
        )->Ok_0[0] != 0,
        ber::first_tagged(fields, 0x84) == Ok::<Seq<u8>, ProtocolError>(message.time),
        message.time.len() == 8,
        ber::first_tagged(fields, 0xab) is Ok,
        ({
            let all_data = ber::all_elements(ber::first_tagged(fields, 0xab)->Ok_0);
            let count = ber::first_tagged(fields, 0x8a);
            &&& all_data is Ok
            &&& message.data.len() == all_data->Ok_0.len()
            &&& forall|i: int|
                0 <= i < message.data.len() ==> all_data->Ok_0[i] == (
                0x89u8,
                #[trigger] message.data[i],
            )
            &&& count is Ok
            &&& 1 <= count->Ok_0.len() <= 8
            &&& octets::signed_value(count->Ok_0) == (if message.data.len() <= 0xffff_ffff {
                message.data.len() as int
            } else {
                0xffff_ffff
            })
        }),
{
}

/// A flag of one octet is set by every octet but zero.
pub proof fn a_flag_is_set_by_every_octet_but_zero(fields: Seq<(u8, Seq<u8>)>, n: u8, octet: u8)
    requires
        n < 31,
        ber::first_tagged(fields, (0x80 + n) as u8) == Ok::<Seq<u8>, ProtocolError>(seq![octet]),
    ensures
        flag_field(fields, n) == Ok::<bool, ProtocolError>(octet != 0),
{
}

/// What a field says, or why it does not, is decided by what stands under its
/// tag.
pub proof fn a_field_is_decided_by_what_stands_under_its_tag(
    fields: Seq<(u8, Seq<u8>)>,
    n: u8,
)
    requires
        n < 31,
    ensures
        match ber::first_tagged(fields, (0x80 + n) as u8) {
            Err(error) => {
                &&& number_field(fields, n) == Err::<u32, ProtocolError>(error)
                &&& text_field(fields, n) == Err::<Seq<char>, ProtocolError>(error)
                &&& flag_field(fields, n) == Err::<bool, ProtocolError>(error)
                &&& n == 4 ==> time_field(fields) == Err::<Seq<u8>, ProtocolError>(error)
            },
            Ok(contents) => {
                let value = octets::signed_value(contents);
                &&& number_field(fields, n) == (if !(1 <= contents.len() <= 8) {
                    Err(ProtocolError::IntegerWidth)
                } else if !(0 <= value <= 0xffff_ffff) {
                    Err(ProtocolError::NumberRange)
                } else {
                    Ok(value as u32)
                })
                &&& text_field(fields, n) == Ok::<Seq<char>, ProtocolError>(
                    text::text_of(contents),
                )
                &&& flag_field(fields, n) == Ok::<bool, ProtocolError>(
                    contents.len() > 0 && contents[0] != 0,
                )
                &&& n == 4 ==> time_field(fields) == (if contents.len() == 8 {
                    Ok(contents)
                } else {
                    Err(ProtocolError::TimeWidth)
                })
            },
        },
        match ber::first_tagged(fields, 0xab) {
            Err(error) => data_field(fields) == Err::<Seq<Seq<u8>>, ProtocolError>(error),
            Ok(all_data) => match ber::all_elements(all_data) {
                Err(error) => data_field(fields) == Err::<Seq<Seq<u8>>, ProtocolError>(error),
                Ok(entries) => {
                    &&& (exists|i: int|
                        0 <= i < entries.len() && (#[trigger] entries[i]).0 != 0x89)
                        ==> data_field(fields) == Err::<Seq<Seq<u8>>, ProtocolError>(
                        ProtocolError::EntryNotOctetString,
                    )
                    &&& (forall|i: int|
                        0 <= i < entries.len() ==> (#[trigger] entries[i]).0 == 0x89)
                        ==> data_field(fields) == Ok::<Seq<Seq<u8>>, ProtocolError>(
                        Seq::new(entries.len(), |i: int| entries[i].1),
                    )
                },
            },
        },
{
    if let Ok(all_data) = ber::first_tagged(fields, 0xab) {
        if let Ok(entries) = ber::all_elements(all_data) {
            assert(entries.map_values(|entry: (u8, Seq<u8>)| entry.1) =~= Seq::new(
                entries.len(),
                |i: int| entries[i].1,
            ));
        }
    }
}

/// Where fields are wrong, the time says so first, then the entries, then
/// their number, and then the others in the order of their tags.
pub proof fn the_first_wrong_field_says_so(app_id: u16, fields: Seq<(u8, Seq<u8>)>)
    ensures
        ({
            let refused = |error: ProtocolError| message_of_fields(app_id, fields) == Err::<
                GooseView,
                ProtocolError,
            >(error);
            match (time_field(fields), data_field(fields), number_field(fields, 10)) {
                (Err(error), _, _) => refused(error),
                (Ok(_), Err(error), _) => refused(error),
                (Ok(_), Ok(_), Err(error)) => refused(error),
                (Ok(_), Ok(data), Ok(count)) => if count != (if data.len() <= 0xffff_ffff {
                    data.len() as int
                } else {
                    0xffff_ffff
                }) {
                    refused(ProtocolError::EntryCount)
                } else if let Err(error) = text_field(fields, 0) {
                    refused(error)
                } else if let Err(error) = number_field(fields, 1) {
                    refused(error)
                } else if let Err(error) = text_field(fields, 2) {
                    refused(error)
                } else if let Err(error) = text_field(fields, 3) {
                    refused(error)
                } else if let Err(error) = number_field(fields, 5) {
                    refused(error)
                } else if let Err(error) = number_field(fields, 6) {
                    refused(error)
                } else if let Err(error) = flag_field(fields, 7) {
                    refused(error)
                } else if let Err(error) = number_field(fields, 8) {
                    refused(error)
                } else if let Err(error) = flag_field(fields, 9) {
                    refused(error)
                } else {
                    message_of_fields(app_id, fields) is Ok
                },
            }
        }),
{
}

} // verus!
