//! The client's side of one association: what it sends for each request,
//! and what it makes of the answer.
//!
//! Every request is two steps. The first gives the bytes to send; the second
//! takes what was received for them, or that nothing was because the server
//! closed.

use vstd::prelude::*;

use crate::error::{Asked, Error, ErrorView, ProtocolError};
use crate::mms;
use crate::mms::{Pdu, PduView};

verus! {

/// The invoke identifier after `invoke`; after the last comes the first.
pub open spec fn invoke_after(invoke: u32) -> u32 {
    if invoke == u32::MAX {
        0
    } else {
        (invoke + 1) as u32
    }
}

/// The PDU that was received.
pub open spec fn received_pdu(received: Option<Seq<u8>>) -> Result<PduView, ErrorView> {
    match received {
        None => Err(ErrorView::Closed),
        Some(message) => match mms::pdu_of(message) {
            Err(error) => Err(ErrorView::Protocol(error)),
            Ok(pdu) => Ok(pdu),
        },
    }
}

/// The answer to `invoke`, of what was received.
pub open spec fn confirmed_answer(invoke: u32, received: Result<PduView, ErrorView>) -> Result<
    PduView,
    ErrorView,
> {
    match received {
        Err(error) => Err(error),
        Ok(answer) => if answer.invoke() == Some(invoke) {
            Ok(answer)
        } else {
            Err(ErrorView::AnotherInvoke)
        },
    }
}

/// Whether `received` answers `asked` with `expected`, which carries no more
/// than that.
pub open spec fn expected_answer(
    asked: Asked,
    expected: PduView,
    received: Result<PduView, ErrorView>,
) -> Result<(), ErrorView> {
    match received {
        Err(error) => Err(error),
        Ok(answer) => if answer == expected {
            Ok(())
        } else {
            Err(ErrorView::UnexpectedAnswer { asked, answer })
        },
    }
}

/// What a read comes to, of the answer to it.
pub open spec fn read_of_answer(
    domain: Seq<char>,
    item: Seq<char>,
    answer: Result<PduView, ErrorView>,
) -> Result<Seq<u8>, ErrorView> {
    match answer {
        Err(error) => Err(error),
        Ok(PduView::ReadOk { data, .. }) => Ok(data),
        Ok(PduView::ReadFailed { error, .. }) => Err(ErrorView::Refused { domain, item, error }),
        Ok(other) => Err(ErrorView::UnexpectedAnswer { asked: Asked::Read, answer: other }),
    }
}

/// What a write comes to, of the answer to it.
pub open spec fn write_of_answer(
    domain: Seq<char>,
    item: Seq<char>,
    answer: Result<PduView, ErrorView>,
) -> Result<(), ErrorView> {
    match answer {
        Err(error) => Err(error),
        Ok(PduView::WriteOk { .. }) => Ok(()),
        Ok(PduView::WriteFailed { error, .. }) => Err(ErrorView::Refused { domain, item, error }),
        Ok(other) => Err(ErrorView::UnexpectedAnswer { asked: Asked::Write, answer: other }),
    }
}

/// Whether the server answered `asked` with `expected`.
pub open spec fn plain_answer(
    asked: Asked,
    expected: PduView,
    received: Option<Seq<u8>>,
) -> Result<(), ErrorView> {
    expected_answer(asked, expected, received_pdu(received))
}

/// What a read comes to: the bytes of the variable, or why there are none.
pub open spec fn read_answer(
    invoke: u32,
    domain: Seq<char>,
    item: Seq<char>,
    received: Option<Seq<u8>>,
) -> Result<Seq<u8>, ErrorView> {
    read_of_answer(domain, item, confirmed_answer(invoke, received_pdu(received)))
}

/// What a write comes to: done, or why not.
pub open spec fn write_answer(
    invoke: u32,
    domain: Seq<char>,
    item: Seq<char>,
    received: Option<Seq<u8>>,
) -> Result<(), ErrorView> {
    write_of_answer(domain, item, confirmed_answer(invoke, received_pdu(received)))
}

/// A PDU or why there is none, as what it says.
pub open spec fn answer_view(answer: Result<Pdu, Error>) -> Result<PduView, ErrorView> {
    match answer {
        Ok(pdu) => Ok(pdu@),
        Err(e) => Err(e@),
    }
}

/// That something is done, or why not, as what it says.
pub open spec fn done_view(done: Result<(), Error>) -> Result<(), ErrorView> {
    match done {
        Ok(_) => Ok(()),
        Err(e) => Err(e@),
    }
}

/// What was received, as octets.
pub open spec fn received_view(received: Option<&[u8]>) -> Option<Seq<u8>> {
    match received {
        Some(message) => Some(message@),
        None => None,
    }
}

/// One association with a server: the invoke identifier it used last.
pub struct Client {
    invoke: u32,
}

impl View for Client {
    type V = u32;

    closed spec fn view(&self) -> u32 {
        self.invoke
    }
}

impl Client {
    /// What opens an association: an initiate.
    pub fn initiate() -> (request: Vec<u8>)
        ensures
            request@ == mms::pdu_octets(PduView::Initiate),
    {
        Pdu::Initiate.encode()
    }

    /// The association, once the server answered initiate.
    pub fn connect(received: Option<&[u8]>) -> (client: Result<Client, Error>)
        ensures
            match client {
                Ok(opened) => opened@ == 0 && plain_answer(
                    Asked::Initiate,
                    PduView::InitiateOk,
                    received_view(received),
                ) == Ok::<(), ErrorView>(()),
                Err(e) => plain_answer(
                    Asked::Initiate,
                    PduView::InitiateOk,
                    received_view(received),
                ) == Err::<(), ErrorView>(e@),
            },
    {
        match initiated(Client::answer(received)) {
            Ok(_) => Ok(Client { invoke: 0 }),
            Err(e) => Err(e),
        }
    }

    /// What asks for the bytes of `domain/item`.
    pub fn read(&mut self, domain: &str, item: &str) -> (request: Vec<u8>)
        ensures
            final(self)@ == invoke_after(old(self)@),
            request@ == mms::pdu_octets(
                (PduView::Read { invoke: final(self)@, domain: domain@, item: item@ }),
            ),
    {
        let invoke: u32 = self.next_invoke();
        Pdu::Read { invoke, domain: domain.to_string(), item: item.to_string() }.encode()
    }

    /// The bytes of `domain/item`, once the server answered the read that
    /// was asked last. A server that refuses the variable or goes away is an
    /// error.
    pub fn read_answered(&self, domain: &str, item: &str, received: Option<&[u8]>) -> (bytes:
        Result<Vec<u8>, Error>)
        ensures
            match bytes {
                Ok(data) => read_answer(self@, domain@, item@, received_view(received)) == Ok::<
                    Seq<u8>,
                    ErrorView,
                >(data@),
                Err(e) => read_answer(self@, domain@, item@, received_view(received)) == Err::<
                    Seq<u8>,
                    ErrorView,
                >(e@),
            },
    {
        read_done(domain, item, confirmed(self.invoke, Client::answer(received)))
    }

    /// What writes `bytes` to `domain/item`.
    pub fn write(&mut self, domain: &str, item: &str, bytes: &[u8]) -> (request: Vec<u8>)
        ensures
            final(self)@ == invoke_after(old(self)@),
            request@ == mms::pdu_octets(
                (PduView::Write {
                    invoke: final(self)@,
                    domain: domain@,
                    item: item@,
                    data: bytes@,
                }),
            ),
    {
        let invoke: u32 = self.next_invoke();
        Pdu::Write {
            invoke,
            domain: domain.to_string(),
            item: item.to_string(),
            data: vstd::slice::slice_to_vec(bytes),
        }.encode()
    }

    /// Whether the write that was asked last is done, once the server
    /// answered it. A server that refuses the variable or goes away is an
    /// error.
    pub fn write_answered(&self, domain: &str, item: &str, received: Option<&[u8]>) -> (done:
        Result<(), Error>)
        ensures
            done_view(done) == write_answer(self@, domain@, item@, received_view(received)),
    {
        write_done(domain, item, confirmed(self.invoke, Client::answer(received)))
    }

    /// What concludes the association.
    pub fn conclude(self) -> (request: Vec<u8>)
        ensures
            request@ == mms::pdu_octets(PduView::Conclude),
    {
        Pdu::Conclude.encode()
    }

    /// Whether the association is concluded, once the server answered.
    pub fn concluded(received: Option<&[u8]>) -> (done: Result<(), Error>)
        ensures
            done_view(done) == plain_answer(
                Asked::Conclude,
                PduView::ConcludeOk,
                received_view(received),
            ),
    {
        concluded(Client::answer(received))
    }

    fn next_invoke(&mut self) -> (invoke: u32)
        ensures
            final(self)@ == invoke_after(old(self)@),
            invoke == final(self)@,
    {
        self.invoke = self.invoke.wrapping_add(1);
        self.invoke
    }

    /// The PDU that was received.
    fn answer(received: Option<&[u8]>) -> (answer: Result<Pdu, Error>)
        ensures
            answer_view(answer) == received_pdu(received_view(received)),
    {
        match received {
            Some(message) => match Pdu::decode(message) {
                Ok(pdu) => Ok(pdu),
                Err(e) => Err(Error::Protocol(e)),
            },
            None => Err(Error::Closed),
        }
    }
}

/// The answer to `invoke`, of what was received.
fn confirmed(invoke: u32, received: Result<Pdu, Error>) -> (answer: Result<Pdu, Error>)
    ensures
        answer_view(answer) == confirmed_answer(invoke, answer_view(received)),
{
    let answer = match received {
        Ok(pdu) => pdu,
        Err(e) => return Err(e),
    };
    match answer.invoke() {
        Some(answered) => if answered == invoke {
            Ok(answer)
        } else {
            Err(Error::AnotherInvoke)
        },
        None => Err(Error::AnotherInvoke),
    }
}

/// Whether initiate was answered.
fn initiated(received: Result<Pdu, Error>) -> (done: Result<(), Error>)
    ensures
        done_view(done) == expected_answer(
            Asked::Initiate,
            PduView::InitiateOk,
            answer_view(received),
        ),
{
    match received {
        Ok(Pdu::InitiateOk) => Ok(()),
        Ok(other) => Err(Error::UnexpectedAnswer { asked: Asked::Initiate, answer: other }),
        Err(e) => Err(e),
    }
}

/// Whether conclude was answered.
fn concluded(received: Result<Pdu, Error>) -> (done: Result<(), Error>)
    ensures
        done_view(done) == expected_answer(
            Asked::Conclude,
            PduView::ConcludeOk,
            answer_view(received),
        ),
{
    match received {
        Ok(Pdu::ConcludeOk) => Ok(()),
        Ok(other) => Err(Error::UnexpectedAnswer { asked: Asked::Conclude, answer: other }),
        Err(e) => Err(e),
    }
}

/// The bytes that the answer to a read carries.
fn read_done(domain: &str, item: &str, answer: Result<Pdu, Error>) -> (bytes: Result<
    Vec<u8>,
    Error,
>)
    ensures
        match bytes {
            Ok(data) => read_of_answer(domain@, item@, answer_view(answer)) == Ok::<
                Seq<u8>,
                ErrorView,
            >(data@),
            Err(e) => read_of_answer(domain@, item@, answer_view(answer)) == Err::<
                Seq<u8>,
                ErrorView,
            >(e@),
        },
{
    match answer {
        Ok(Pdu::ReadOk { data, .. }) => Ok(data),
        Ok(Pdu::ReadFailed { error, .. }) => Err(refused(domain, item, error)),
        Ok(other) => Err(Error::UnexpectedAnswer { asked: Asked::Read, answer: other }),
        Err(e) => Err(e),
    }
}

/// Whether the answer to a write says that it is done.
fn write_done(domain: &str, item: &str, answer: Result<Pdu, Error>) -> (done: Result<(), Error>)
    ensures
        done_view(done) == write_of_answer(domain@, item@, answer_view(answer)),
{
    match answer {
        Ok(Pdu::WriteOk { .. }) => Ok(()),
        Ok(Pdu::WriteFailed { error, .. }) => Err(refused(domain, item, error)),
        Ok(other) => Err(Error::UnexpectedAnswer { asked: Asked::Write, answer: other }),
        Err(e) => Err(e),
    }
}

/// The server refused `domain/item`.
fn refused(domain: &str, item: &str, error: i64) -> (refusal: Error)
    ensures
        refusal@ == (ErrorView::Refused { domain: domain@, item: item@, error }),
{
    Error::Refused { domain: domain.to_string(), item: item.to_string(), error }
}

/// One more than the invoke identifier used last, in thirty-two bits.
pub proof fn an_invoke_is_one_more_than_the_last(invoke: u32)
    ensures
        invoke_after(invoke) == (invoke + 1) % 0x1_0000_0000,
{
}

/// A write is done only where the server answered its invoke with success. A
/// data access error refuses it, whatever its number; any other answer, and
/// none, is an error that says so.
pub proof fn a_write_is_done_only_where_the_server_says_so(
    invoke: u32,
    domain: Seq<char>,
    item: Seq<char>,
    message: Seq<u8>,
    error: i64,
)
    ensures
        write_answer(invoke, domain, item, None) == Err::<(), ErrorView>(ErrorView::Closed),
        write_answer(invoke, domain, item, Some(message)) is Ok <==> mms::pdu_of(message) == Ok::<
            PduView,
            ProtocolError,
        >(PduView::WriteOk { invoke }),
        mms::pdu_of(message) == Ok::<PduView, ProtocolError>(
            PduView::WriteFailed { invoke, error },
        ) ==> write_answer(invoke, domain, item, Some(message)) == Err::<(), ErrorView>(
            ErrorView::Refused { domain, item, error },
        ),
        match mms::pdu_of(message) {
            Err(reason) => write_answer(invoke, domain, item, Some(message)) == Err::<
                (),
                ErrorView,
            >(ErrorView::Protocol(reason)),
            Ok(answer) => {
                &&& answer.invoke() != Some(invoke) ==> write_answer(
                    invoke,
                    domain,
                    item,
                    Some(message),
                ) == Err::<(), ErrorView>(ErrorView::AnotherInvoke)
                &&& answer.invoke() == Some(invoke) && !(answer is WriteOk)
                    && !(answer is WriteFailed) ==> write_answer(
                    invoke,
                    domain,
                    item,
                    Some(message),
                ) == Err::<(), ErrorView>(
                    ErrorView::UnexpectedAnswer { asked: Asked::Write, answer },
                )
            },
        },
{
}

/// A read comes to the data of the answer to its invoke, octet by octet, and
/// to nothing else. A data access error refuses it, whatever its number; any
/// other answer, and none, is an error that says so.
pub proof fn a_read_comes_to_the_data_that_the_server_sends(
    invoke: u32,
    domain: Seq<char>,
    item: Seq<char>,
    message: Seq<u8>,
    data: Seq<u8>,
    error: i64,
)
    ensures
        read_answer(invoke, domain, item, None) == Err::<Seq<u8>, ErrorView>(ErrorView::Closed),
        read_answer(invoke, domain, item, Some(message)) == Ok::<Seq<u8>, ErrorView>(data)
            <==> mms::pdu_of(message) == Ok::<PduView, ProtocolError>(
            PduView::ReadOk { invoke, data },
        ),
        mms::pdu_of(message) == Ok::<PduView, ProtocolError>(
            PduView::ReadFailed { invoke, error },
        ) ==> read_answer(invoke, domain, item, Some(message)) == Err::<Seq<u8>, ErrorView>(
            ErrorView::Refused { domain, item, error },
        ),
        match mms::pdu_of(message) {
            Err(reason) => read_answer(invoke, domain, item, Some(message)) == Err::<
                Seq<u8>,
                ErrorView,
            >(ErrorView::Protocol(reason)),
            Ok(answer) => {
                &&& answer.invoke() != Some(invoke) ==> read_answer(
                    invoke,
                    domain,
                    item,
                    Some(message),
                ) == Err::<Seq<u8>, ErrorView>(ErrorView::AnotherInvoke)
                &&& answer.invoke() == Some(invoke) && !(answer is ReadOk)
                    && !(answer is ReadFailed) ==> read_answer(
                    invoke,
                    domain,
                    item,
                    Some(message),
                ) == Err::<Seq<u8>, ErrorView>(
                    ErrorView::UnexpectedAnswer { asked: Asked::Read, answer },
                )
            },
        },
{
}

/// An association is open, or concluded, only where the server answered with
/// just that. Any other answer, and none, is an error that says so.
pub proof fn an_association_is_what_the_server_answers(
    asked: Asked,
    expected: PduView,
    message: Seq<u8>,
)
    ensures
        plain_answer(asked, expected, None) == Err::<(), ErrorView>(ErrorView::Closed),
        plain_answer(asked, expected, Some(message)) is Ok <==> mms::pdu_of(message) == Ok::<
            PduView,
            ProtocolError,
        >(expected),
        match mms::pdu_of(message) {
            Err(reason) => plain_answer(asked, expected, Some(message)) == Err::<(), ErrorView>(
                ErrorView::Protocol(reason),
            ),
            Ok(answer) => answer != expected ==> plain_answer(asked, expected, Some(message))
                == Err::<(), ErrorView>(ErrorView::UnexpectedAnswer { asked, answer }),
        },
{
}

/// What was received and what came of it say what they hold.
pub proof fn what_was_received_says_what_it_holds(message: &[u8], pdu: Pdu, error: Error)
    ensures
        received_view(Some(message)) == Some(message@),
        received_view(None) is None,
        answer_view(Ok(pdu)) == Ok::<PduView, ErrorView>(pdu@),
        answer_view(Err(error)) == Err::<PduView, ErrorView>(error@),
        done_view(Ok(())) == Ok::<(), ErrorView>(()),
        done_view(Err(error)) == Err::<(), ErrorView>(error@),
{
}

} // verus!
