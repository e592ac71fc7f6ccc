//! What a client and a session come to together.

use vstd::prelude::*;

use crate::client;
use crate::error::{Asked, ErrorView, ProtocolError};
use crate::mms;
use crate::mms::{OBJECT_NON_EXISTENT, PduView};
use crate::session;
use crate::session::{EventView, Name, Outcome, Received, Variables};

verus! {

/// A PDU of a length that a reader takes.
pub open spec fn carried(pdu: PduView) -> bool {
    mms::pdu_contents(pdu).len() <= u32::MAX
}

/// A request that comes across has the outcome of that request.
pub proof fn a_request_is_served_as_it_was_asked(variables: Variables, request: PduView)
    requires
        carried(request),
    ensures
        session::outcome_of_message(variables, mms::pdu_octets(request)) == session::outcome_of(
            variables,
            request,
        ),
{
    mms::a_pdu_reads_back(request);
}

/// A session answers initiate, the client takes the association for open,
/// and no variable changes.
pub proof fn an_association_opens(variables: Variables)
    ensures
        ({
            let outcome = session::outcome_of_message(
                variables,
                mms::pdu_octets(PduView::Initiate),
            );
            &&& outcome is Ok
            &&& outcome->Ok_0.variables == variables
            &&& outcome->Ok_0.event == Some(EventView::Initiated)
            &&& client::plain_answer(
                Asked::Initiate,
                PduView::InitiateOk,
                Some(mms::pdu_octets(outcome->Ok_0.answer)),
            ) == Ok::<(), ErrorView>(())
        }),
{
    mms::a_pdu_without_names_or_data_reads_back(PduView::Initiate);
    mms::a_pdu_without_names_or_data_reads_back(PduView::InitiateOk);
}

/// A session answers conclude and is done, the client takes the association
/// for concluded, and no variable changes.
pub proof fn an_association_concludes(variables: Variables)
    ensures
        ({
            let outcome = session::outcome_of_message(
                variables,
                mms::pdu_octets(PduView::Conclude),
            );
            &&& outcome is Ok
            &&& outcome->Ok_0.variables == variables
            &&& outcome->Ok_0.event is None
            &&& client::plain_answer(
                Asked::Conclude,
                PduView::ConcludeOk,
                Some(mms::pdu_octets(outcome->Ok_0.answer)),
            ) == Ok::<(), ErrorView>(())
        }),
{
    mms::a_pdu_without_names_or_data_reads_back(PduView::Conclude);
    mms::a_pdu_without_names_or_data_reads_back(PduView::ConcludeOk);
}

/// A client that reads a variable gets what the session holds, and reading
/// changes nothing.
pub proof fn a_read_gives_what_is_held(
    variables: Variables,
    invoke: u32,
    domain: Seq<char>,
    item: Seq<char>,
)
    requires
        variables.dom().contains((domain, item)),
        carried(PduView::Read { invoke, domain, item }),
        carried(PduView::ReadOk { invoke, data: variables[(domain, item)] }),
    ensures
        ({
            let outcome = session::outcome_of_message(
                variables,
                mms::pdu_octets(PduView::Read { invoke, domain, item }),
            );
            &&& outcome is Ok
            &&& outcome->Ok_0.variables == variables
            &&& outcome->Ok_0.event == Some(EventView::Read { domain, item, served: true })
            &&& client::read_answer(
                invoke,
                domain,
                item,
                Some(mms::pdu_octets(outcome->Ok_0.answer)),
            ) == Ok::<Seq<u8>, ErrorView>(variables[(domain, item)])
        }),
{
    mms::a_pdu_reads_back(PduView::Read { invoke, domain, item });
    mms::a_pdu_reads_back(PduView::ReadOk { invoke, data: variables[(domain, item)] });
}

/// A client that writes a variable is told so, the session holds what was
/// written, and every other variable is as it was.
pub proof fn a_write_is_held(
    variables: Variables,
    invoke: u32,
    domain: Seq<char>,
    item: Seq<char>,
    data: Seq<u8>,
)
    requires
        variables.dom().contains((domain, item)),
        carried(PduView::Write { invoke, domain, item, data }),
    ensures
        ({
            let outcome = session::outcome_of_message(
                variables,
                mms::pdu_octets(PduView::Write { invoke, domain, item, data }),
            );
            let after = outcome->Ok_0.variables;
            &&& outcome is Ok
            &&& outcome->Ok_0.event == Some(EventView::Written { domain, item, served: true })
            &&& client::write_answer(
                invoke,
                domain,
                item,
                Some(mms::pdu_octets(outcome->Ok_0.answer)),
            ) == Ok::<(), ErrorView>(())
            &&& after.dom() == variables.dom()
            &&& after[(domain, item)] == data
            &&& forall|other: Name|
                other != (domain, item) && #[trigger] variables.dom().contains(other)
                    ==> after[other] == variables[other]
        }),
{
    mms::a_pdu_reads_back(PduView::Write { invoke, domain, item, data });
    mms::a_pdu_without_names_or_data_reads_back(PduView::WriteOk { invoke });
    assert(variables.insert((domain, item), data).dom() =~= variables.dom());
}

/// A read after a write gives back what was written.
pub proof fn a_read_gives_back_what_a_write_wrote(
    variables: Variables,
    write_invoke: u32,
    read_invoke: u32,
    domain: Seq<char>,
    item: Seq<char>,
    data: Seq<u8>,
)
    requires
        variables.dom().contains((domain, item)),
        carried(PduView::Write { invoke: write_invoke, domain, item, data }),
        carried(PduView::Read { invoke: read_invoke, domain, item }),
        carried(PduView::ReadOk { invoke: read_invoke, data }),
    ensures
        ({
            let written = session::outcome_of_message(
                variables,
                mms::pdu_octets(PduView::Write { invoke: write_invoke, domain, item, data }),
            );
            let read = session::outcome_of_message(
                written->Ok_0.variables,
                mms::pdu_octets(PduView::Read { invoke: read_invoke, domain, item }),
            );
            &&& written is Ok
            &&& read is Ok
            &&& client::read_answer(
                read_invoke,
                domain,
                item,
                Some(mms::pdu_octets(read->Ok_0.answer)),
            ) == Ok::<Seq<u8>, ErrorView>(data)
        }),
{
    a_write_is_held(variables, write_invoke, domain, item, data);
    let after = session::outcome_of_message(
        variables,
        mms::pdu_octets(PduView::Write { invoke: write_invoke, domain, item, data }),
    )->Ok_0.variables;
    a_read_gives_what_is_held(after, read_invoke, domain, item);
}

/// A read of a variable that is not there is refused with the data access
/// error, and changes nothing.
pub proof fn a_read_of_what_is_not_there_is_refused(
    variables: Variables,
    invoke: u32,
    domain: Seq<char>,
    item: Seq<char>,
)
    requires
        !variables.dom().contains((domain, item)),
        carried(PduView::Read { invoke, domain, item }),
    ensures
        ({
            let outcome = session::outcome_of_message(
                variables,
                mms::pdu_octets(PduView::Read { invoke, domain, item }),
            );
            &&& outcome is Ok
            &&& outcome->Ok_0.variables == variables
            &&& outcome->Ok_0.event == Some(EventView::Read { domain, item, served: false })
            &&& client::read_answer(
                invoke,
                domain,
                item,
                Some(mms::pdu_octets(outcome->Ok_0.answer)),
            ) == Err::<Seq<u8>, ErrorView>(
                ErrorView::Refused { domain, item, error: OBJECT_NON_EXISTENT },
            )
        }),
{
    let answer = PduView::ReadFailed { invoke, error: OBJECT_NON_EXISTENT };
    mms::a_pdu_reads_back(PduView::Read { invoke, domain, item });
    mms::a_pdu_without_names_or_data_reads_back(answer);
}

/// A write of a variable that is not there is refused with the data access
/// error, and changes nothing.
pub proof fn a_write_of_what_is_not_there_is_refused(
    variables: Variables,
    invoke: u32,
    domain: Seq<char>,
    item: Seq<char>,
    data: Seq<u8>,
)
    requires
        !variables.dom().contains((domain, item)),
        carried(PduView::Write { invoke, domain, item, data }),
    ensures
        ({
            let outcome = session::outcome_of_message(
                variables,
                mms::pdu_octets(PduView::Write { invoke, domain, item, data }),
            );
            &&& outcome is Ok
            &&& outcome->Ok_0.variables == variables
            &&& outcome->Ok_0.event == Some(EventView::Written { domain, item, served: false })
            &&& client::write_answer(
                invoke,
                domain,
                item,
                Some(mms::pdu_octets(outcome->Ok_0.answer)),
            ) == Err::<(), ErrorView>(
                ErrorView::Refused { domain, item, error: OBJECT_NON_EXISTENT },
            )
        }),
{
    let answer = PduView::WriteFailed { invoke, error: OBJECT_NON_EXISTENT };
    mms::a_pdu_reads_back(PduView::Write { invoke, domain, item, data });
    mms::a_pdu_without_names_or_data_reads_back(answer);
}

/// A client that answers instead of asking is refused.
pub proof fn an_answer_is_no_request(variables: Variables, pdu: PduView)
    requires
        carried(pdu),
        !(pdu is Initiate || pdu is Conclude || pdu is Read || pdu is Write),
    ensures
        session::outcome_of_message(variables, mms::pdu_octets(pdu)) == Err::<Outcome, ErrorView>(
            ErrorView::NotARequest(pdu),
        ),
{
    mms::a_pdu_reads_back(pdu);
}

/// An answer to another invoke, or to none, is not taken for the answer.
pub proof fn an_answer_to_another_invoke_is_refused(
    invoke: u32,
    domain: Seq<char>,
    item: Seq<char>,
    answer: PduView,
)
    requires
        carried(answer),
        answer.invoke() != Some(invoke),
    ensures
        client::read_answer(invoke, domain, item, Some(mms::pdu_octets(answer))) == Err::<
            Seq<u8>,
            ErrorView,
        >(ErrorView::AnotherInvoke),
        client::write_answer(invoke, domain, item, Some(mms::pdu_octets(answer))) == Err::<
            (),
            ErrorView,
        >(ErrorView::AnotherInvoke),
{
    mms::a_pdu_reads_back(answer);
}

/// Every answer of a session carries the invoke identifier of the request.
pub proof fn an_answer_carries_the_invoke_of_its_request(variables: Variables, request: PduView)
    requires
        session::outcome_of(variables, request) is Ok,
    ensures
        session::outcome_of(variables, request)->Ok_0.answer.invoke() == request.invoke(),
{
}

/// Two requests in a row carry different invoke identifiers.
pub proof fn invokes_in_a_row_differ(invoke: u32)
    ensures
        client::invoke_after(invoke) != invoke,
{
}

/// The variables after a session served `messages`, up to the one that
/// concludes or is refused.
pub open spec fn variables_after(variables: Variables, messages: Seq<Seq<u8>>) -> Variables {
    session::serving(variables, session::as_read(messages)).variables
}

/// A request after which a session waits for another.
pub open spec fn goes_on(received: Received) -> bool {
    match received {
        Ok(request) => request is Initiate || request is Read || request is Write,
        Err(_) => false,
    }
}

/// A conclude.
pub open spec fn concludes(received: Received) -> bool {
    match received {
        Ok(request) => request is Conclude,
        Err(_) => false,
    }
}

/// How many requests stand before the first message that concludes or is
/// refused.
pub open spec fn requests_before_the_end(received: Seq<Received>) -> nat
    decreases received.len(),
{
    if received.len() > 0 && goes_on(received[0]) {
        1 + requests_before_the_end(received.skip(1))
    } else {
        0
    }
}

/// What a request writes to `name`, if it does.
pub open spec fn written_to(received: Received, name: Name) -> Option<Seq<u8>> {
    match received {
        Ok(PduView::Write { domain, item, data, .. }) => if (domain, item) == name {
            Some(data)
        } else {
            None
        },
        _ => None,
    }
}

/// One step of a session, whatever was received.
proof fn lemma_step(variables: Variables, received: Received)
    ensures
        match session::outcome_of_received(variables, received) {
            Ok(outcome) => {
                &&& goes_on(received) || concludes(received)
                &&& outcome.event is None <==> concludes(received)
                &&& outcome.answer.invoke() == received->Ok_0.invoke()
                &&& outcome.variables.dom() == variables.dom()
                &&& forall|name: Name|
                    #![trigger outcome.variables[name]]
                    variables.dom().contains(name) ==> outcome.variables[name] == (
                    match written_to(received, name) {
                        Some(data) => data,
                        None => variables[name],
                    })
            },
            Err(error) => !goes_on(received) && !concludes(received),
        },
{
    if let Ok(outcome) = session::outcome_of_received(variables, received) {
        assert(outcome.variables.dom() =~= variables.dom());
    }
}

proof fn lemma_end(variables: Variables, received: Seq<Received>)
    ensures
        ({
            let served = requests_before_the_end(received) as int;
            let serving = session::serving(variables, received);
            &&& served <= received.len()
            &&& forall|i: int| 0 <= i < served ==> goes_on(#[trigger] received[i])
            &&& served < received.len() ==> !goes_on(received[served])
            &&& serving.end == (if served == received.len() || concludes(received[served]) {
                Ok::<(), ErrorView>(())
            } else {
                match received[served] {
                    Ok(pdu) => Err(ErrorView::NotARequest(pdu)),
                    Err(error) => Err(ErrorView::Protocol(error)),
                }
            })
        }),
    decreases received.len(),
{
    if received.len() > 0 {
        lemma_step(variables, received[0]);
        if goes_on(received[0]) {
            let after = session::outcome_of_received(variables, received[0])->Ok_0.variables;
            let others = received.skip(1);
            lemma_end(after, others);
            assert forall|i: int|
                0 <= i < requests_before_the_end(received) implies goes_on(
                #[trigger] received[i],
            ) by {
                if i > 0 {
                    assert(others[i - 1] == received[i]);
                }
            }
        }
    }
}

/// A session reads what its client sends up to the first conclude, or to the
/// client's disconnecting, every message before being a request. The first
/// message that is neither is refused.
pub proof fn serving_ends_at_conclude_or_what_is_no_request(
    variables: Variables,
    messages: Seq<Seq<u8>>,
)
    ensures
        ({
            let received = session::as_read(messages);
            let served = requests_before_the_end(received) as int;
            &&& served <= messages.len()
            &&& forall|i: int| 0 <= i < served ==> goes_on(#[trigger] received[i])
            &&& served < messages.len() ==> !goes_on(received[served])
            &&& session::serving(variables, received).end == (if served == messages.len()
                || concludes(received[served]) {
                Ok::<(), ErrorView>(())
            } else {
                match received[served] {
                    Ok(pdu) => Err(ErrorView::NotARequest(pdu)),
                    Err(error) => Err(ErrorView::Protocol(error)),
                }
            })
        }),
{
    lemma_end(variables, session::as_read(messages));
}

proof fn lemma_answers(variables: Variables, received: Seq<Received>)
    ensures
        ({
            let served = requests_before_the_end(received) as int;
            let answers = session::serving(variables, received).answers;
            &&& answers.len() == served + (if served < received.len() && concludes(
                received[served],
            ) {
                1int
            } else {
                0
            })
            &&& forall|i: int|
                0 <= i < answers.len() ==> {
                    let before = session::serving(variables, received.take(i)).variables;
                    let outcome = session::outcome_of_received(before, received[i]);
                    &&& outcome is Ok
                    &&& #[trigger] answers[i] == outcome->Ok_0.answer
                    &&& answers[i].invoke() == received[i]->Ok_0.invoke()
                }
        }),
    decreases received.len(),
{
    lemma_end(variables, received);
    if received.len() > 0 {
        lemma_step(variables, received[0]);
        assert(received.take(0) =~= Seq::empty());
        if goes_on(received[0]) {
            let after = session::outcome_of_received(variables, received[0])->Ok_0.variables;
            let others = received.skip(1);
            let answers = session::serving(variables, received).answers;
            lemma_answers(after, others);
            assert forall|i: int| 0 <= i < answers.len() implies {
                let before = session::serving(variables, received.take(i)).variables;
                let outcome = session::outcome_of_received(before, received[i]);
                &&& outcome is Ok
                &&& #[trigger] answers[i] == outcome->Ok_0.answer
                &&& answers[i].invoke() == received[i]->Ok_0.invoke()
            } by {
                if i > 0 {
                    assert(answers[i] == session::serving(after, others).answers[i - 1]);
                    assert(received.take(i).skip(1) =~= others.take(i - 1));
                    assert(received.take(i)[0] == received[0]);
                    assert(others[i - 1] == received[i]);
                }
            }
        }
    }
}

/// Every request up to the end, and the conclude if that ends it, is answered
/// once and in order: each answer is that to its request, with the variables
/// as the requests before left them, and carries its invoke identifier.
pub proof fn every_request_is_answered_once_and_in_order(
    variables: Variables,
    messages: Seq<Seq<u8>>,
)
    ensures
        ({
            let received = session::as_read(messages);
            let served = requests_before_the_end(received) as int;
            let answers = session::serving(variables, received).answers;
            &&& answers.len() == served + (if served < messages.len() && concludes(
                received[served],
            ) {
                1int
            } else {
                0
            })
            &&& forall|i: int|
                0 <= i < answers.len() ==> {
                    let before = variables_after(variables, messages.take(i));
                    let outcome = session::outcome_of_message(before, messages[i]);
                    &&& outcome is Ok
                    &&& #[trigger] answers[i] == outcome->Ok_0.answer
                    &&& answers[i].invoke() == received[i]->Ok_0.invoke()
                }
        }),
{
    let received = session::as_read(messages);
    let answers = session::serving(variables, received).answers;
    lemma_end(variables, received);
    lemma_answers(variables, received);
    assert forall|i: int| 0 <= i < answers.len() implies {
        let before = variables_after(variables, messages.take(i));
        let outcome = session::outcome_of_message(before, messages[i]);
        &&& outcome is Ok
        &&& #[trigger] answers[i] == outcome->Ok_0.answer
        &&& answers[i].invoke() == received[i]->Ok_0.invoke()
    } by {
        assert(session::as_read(messages.take(i)) =~= received.take(i));
        assert(received[i] == mms::pdu_of(messages[i]));
    }
}

proof fn lemma_domain(variables: Variables, received: Seq<Received>)
    ensures
        session::serving(variables, received).variables.dom() == variables.dom(),
    decreases received.len(),
{
    if received.len() > 0 {
        lemma_step(variables, received[0]);
        if goes_on(received[0]) {
            let after = session::outcome_of_received(variables, received[0])->Ok_0.variables;
            lemma_domain(after, received.skip(1));
        }
    }
}

/// Whatever a client sends, a session holds the variables that it was given
/// and no others.
pub proof fn serving_adds_and_removes_no_variable(variables: Variables, messages: Seq<Seq<u8>>)
    ensures
        variables_after(variables, messages).dom() == variables.dom(),
{
    lemma_domain(variables, session::as_read(messages));
}

proof fn lemma_not_written(variables: Variables, received: Seq<Received>, name: Name)
    requires
        variables.dom().contains(name),
        forall|i: int|
            0 <= i < requests_before_the_end(received) ==> written_to(
                #[trigger] received[i],
                name,
            ) is None,
    ensures
        session::serving(variables, received).variables[name] == variables[name],
    decreases received.len(),
{
    if received.len() > 0 {
        lemma_step(variables, received[0]);
        if goes_on(received[0]) {
            let after = session::outcome_of_received(variables, received[0])->Ok_0.variables;
            let others = received.skip(1);
            lemma_end(after, others);
            assert(written_to(received[0], name) is None);
            assert forall|i: int|
                0 <= i < requests_before_the_end(others) implies written_to(
                #[trigger] others[i],
                name,
            ) is None by {
                assert(others[i] == received[i + 1]);
            }
            lemma_not_written(after, others, name);
        }
    }
}

/// A variable that no request up to the end writes is as it was.
pub proof fn a_variable_that_is_not_written_stays(
    variables: Variables,
    messages: Seq<Seq<u8>>,
    name: Name,
)
    requires
        variables.dom().contains(name),
        forall|i: int|
            0 <= i < requests_before_the_end(session::as_read(messages)) ==> written_to(
                #[trigger] session::as_read(messages)[i],
                name,
            ) is None,
    ensures
        variables_after(variables, messages)[name] == variables[name],
{
    lemma_not_written(variables, session::as_read(messages), name);
}

proof fn lemma_last_write(variables: Variables, received: Seq<Received>, name: Name, last: int)
    requires
        variables.dom().contains(name),
        0 <= last < requests_before_the_end(received),
        written_to(received[last], name) is Some,
        forall|i: int|
            last < i < requests_before_the_end(received) ==> written_to(
                #[trigger] received[i],
                name,
            ) is None,
    ensures
        session::serving(variables, received).variables[name] == written_to(
            received[last],
            name,
        )->Some_0,
    decreases received.len(),
{
    let after = session::outcome_of_received(variables, received[0])->Ok_0.variables;
    let others = received.skip(1);
    lemma_step(variables, received[0]);
    lemma_end(variables, received);
    lemma_end(after, others);
    assert forall|i: int|
        last - 1 < i < requests_before_the_end(others) && 0 <= i implies written_to(
        #[trigger] others[i],
        name,
    ) is None by {
        assert(others[i] == received[i + 1]);
    }
    if last == 0 {
        lemma_not_written(after, others, name);
    } else {
        assert(others[last - 1] == received[last]);
        lemma_last_write(after, others, name, last - 1);
    }
}

/// A variable holds the data of the last request up to the end that writes
/// it.
pub proof fn the_last_write_is_held(
    variables: Variables,
    messages: Seq<Seq<u8>>,
    name: Name,
    last: int,
)
    requires
        variables.dom().contains(name),
        0 <= last < requests_before_the_end(session::as_read(messages)),
        written_to(session::as_read(messages)[last], name) is Some,
        forall|i: int|
            last < i < requests_before_the_end(session::as_read(messages)) ==> written_to(
                #[trigger] session::as_read(messages)[i],
                name,
            ) is None,
    ensures
        variables_after(variables, messages)[name] == written_to(
            session::as_read(messages)[last],
            name,
        )->Some_0,
{
    lemma_last_write(variables, session::as_read(messages), name, last);
}

proof fn lemma_round(variables: Variables, received: Seq<Received>, name: Name)
    requires
        variables.dom().contains(name),
        received.len() == 3,
        received[0] == Ok::<PduView, ProtocolError>(PduView::Initiate),
        written_to(received[1], name) is Some,
        received[2] == Ok::<PduView, ProtocolError>(PduView::Conclude),
    ensures
        session::serving(variables, received).variables.dom() == variables.dom(),
        session::serving(variables, received).variables[name] == written_to(
            received[1],
            name,
        )->Some_0,
{
    let others = received.skip(1);
    assert(goes_on(received[0]));
    assert(goes_on(others[0]));
    assert(!goes_on(others.skip(1)[0]));
    assert(requests_before_the_end(others.skip(1)) == 0);
    assert(requests_before_the_end(others) == 1);
    lemma_domain(variables, received);
    lemma_last_write(variables, received, name, 1);
}

/// Three messages as they are read.
proof fn lemma_three_as_read(
    messages: Seq<Seq<u8>>,
    first: Received,
    second: Received,
    third: Received,
)
    requires
        messages.len() == 3,
        mms::pdu_of(messages[0]) == first,
        mms::pdu_of(messages[1]) == second,
        mms::pdu_of(messages[2]) == third,
    ensures
        session::as_read(messages) == seq![first, second, third],
{
    assert(session::as_read(messages) =~= seq![first, second, third]);
}

proof fn lemma_round_of_messages(variables: Variables, messages: Seq<Seq<u8>>, write: PduView)
    requires
        messages.len() == 3,
        mms::pdu_of(messages[0]) == Ok::<PduView, ProtocolError>(PduView::Initiate),
        mms::pdu_of(messages[1]) == Ok::<PduView, ProtocolError>(write),
        mms::pdu_of(messages[2]) == Ok::<PduView, ProtocolError>(PduView::Conclude),
        write is Write,
        variables.dom().contains((write->Write_domain, write->Write_item)),
    ensures
        variables_after(variables, messages).dom() == variables.dom(),
        variables_after(variables, messages)[(write->Write_domain, write->Write_item)]
            == write->Write_data,
{
    let received = seq![
        Ok::<PduView, ProtocolError>(PduView::Initiate),
        Ok::<PduView, ProtocolError>(write),
        Ok::<PduView, ProtocolError>(PduView::Conclude),
    ];
    lemma_three_as_read(messages, received[0], received[1], received[2]);
    lemma_round(variables, received, (write->Write_domain, write->Write_item));
}

/// A round between the two ends: a session that holds one variable, empty,
/// and a client that initiates, writes it and concludes, leave in it what
/// was written.
pub proof fn a_round_leaves_what_was_sent(
    domain: Seq<char>,
    item: Seq<char>,
    invoke: u32,
    data: Seq<u8>,
)
    requires
        carried(PduView::Write { invoke, domain, item, data }),
    ensures
        ({
            let before = Map::<Name, Seq<u8>>::empty().insert((domain, item), Seq::empty());
            let after = variables_after(
                before,
                seq![
                    mms::pdu_octets(PduView::Initiate),
                    mms::pdu_octets(PduView::Write { invoke, domain, item, data }),
                    mms::pdu_octets(PduView::Conclude),
                ],
            );
            &&& after.dom().contains((domain, item))
            &&& after[(domain, item)] == data
        }),
{
    let before = Map::<Name, Seq<u8>>::empty().insert((domain, item), Seq::empty());
    let write = PduView::Write { invoke, domain, item, data };
    let messages = seq![
        mms::pdu_octets(PduView::Initiate),
        mms::pdu_octets(write),
        mms::pdu_octets(PduView::Conclude),
    ];
    mms::a_pdu_without_names_or_data_reads_back(PduView::Initiate);
    mms::a_pdu_reads_back(write);
    mms::a_pdu_without_names_or_data_reads_back(PduView::Conclude);
    lemma_round_of_messages(before, messages, write);
}

/// A session goes on after an initiate, a read and a write, ends at a
/// conclude, and a write writes its data to the variable that it names.
pub proof fn what_goes_on_and_what_is_written(
    pdu: PduView,
    error: ProtocolError,
    name: Name,
    variables: Variables,
    messages: Seq<Seq<u8>>,
)
    ensures
        variables_after(variables, messages) == session::serving(
            variables,
            session::as_read(messages),
        ).variables,
        goes_on(Ok(pdu)) <==> pdu is Initiate || pdu is Read || pdu is Write,
        !goes_on(Err(error)),
        concludes(Ok(pdu)) <==> pdu is Conclude,
        !concludes(Err(error)),
        written_to(Err(error), name) is None,
        written_to(Ok(pdu), name) == (match pdu {
            PduView::Write { domain, item, data, .. } => if domain == name.0 && item == name.1 {
                Some(data)
            } else {
                None
            },
            _ => None,
        }),
{
}

} // verus!
