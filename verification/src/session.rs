//! The server's side of one association: what stands at the far end so that
//! a client can be driven without a relay in the room.
//!
//! Not an IED. One session serves one client and holds variables as byte
//! vectors named by domain and item: it answers initiate, serves a read
//! from a variable and a write into one, refuses what is not there with
//! the data access error a server would use, and ends at conclude. What the
//! client sends is handed to it, and what it answers is handed back.

use vstd::prelude::*;
use vstd::slice::slice_to_vec;

use crate::error::{Error, ErrorView, ProtocolError};
use crate::mms;
use crate::mms::{OBJECT_NON_EXISTENT, Pdu, PduView};

verus! {

/// What the client asked, as [`Session::next_event`] reports it with the
/// answer.
#[derive(Clone, Debug, PartialEq, Eq)]
pub enum Event {
    Initiated,
    Read { domain: String, item: String, served: bool },
    Written { domain: String, item: String, served: bool },
}

/// What an event says.
#[verifier::ext_equal]
pub enum EventView {
    Initiated,
    Read { domain: Seq<char>, item: Seq<char>, served: bool },
    Written { domain: Seq<char>, item: Seq<char>, served: bool },
}

impl View for Event {
    type V = EventView;

    open spec fn view(&self) -> EventView {
        match *self {
            Event::Initiated => EventView::Initiated,
            Event::Read { domain, item, served } => EventView::Read {
                domain: domain@,
                item: item@,
                served,
            },
            Event::Written { domain, item, served } => EventView::Written {
                domain: domain@,
                item: item@,
                served,
            },
        }
    }
}

/// The name of a variable: its domain and its item.
pub type Name = (Seq<char>, Seq<char>);

/// The variables that a session holds, by name.
pub type Variables = Map<Name, Seq<u8>>;

/// What a session does with a request: the answer, what it reports of it
/// (nothing where the client concluded), and the variables after it.
#[verifier::ext_equal]
pub struct Outcome {
    pub variables: Variables,
    pub answer: PduView,
    pub event: Option<EventView>,
}

/// The outcome of a read: the variable's bytes, or the data access error
/// where there is none of that name.
pub open spec fn read_outcome(
    variables: Variables,
    invoke: u32,
    domain: Seq<char>,
    item: Seq<char>,
) -> Outcome {
    let served = variables.dom().contains((domain, item));
    Outcome {
        variables,
        answer: if served {
            PduView::ReadOk { invoke, data: variables[(domain, item)] }
        } else {
            PduView::ReadFailed { invoke, error: OBJECT_NON_EXISTENT }
        },
        event: Some(EventView::Read { domain, item, served }),
    }
}

/// The outcome of a write: the variable holds the data, or the data access
/// error and nothing changed where there is none of that name.
pub open spec fn write_outcome(
    variables: Variables,
    invoke: u32,
    domain: Seq<char>,
    item: Seq<char>,
    data: Seq<u8>,
) -> Outcome {
    let served = variables.dom().contains((domain, item));
    Outcome {
        variables: if served {
            variables.insert((domain, item), data)
        } else {
            variables
        },
        answer: if served {
            PduView::WriteOk { invoke }
        } else {
            PduView::WriteFailed { invoke, error: OBJECT_NON_EXISTENT }
        },
        event: Some(EventView::Written { domain, item, served }),
    }
}

/// The outcome of a PDU; one that is not a request is refused.
pub open spec fn outcome_of(variables: Variables, request: PduView) -> Result<Outcome, ErrorView> {
    match request {
        PduView::Initiate => Ok(
            Outcome {
                variables,
                answer: PduView::InitiateOk,
                event: Some(EventView::Initiated),
            },
        ),
        PduView::Conclude => Ok(
            Outcome { variables, answer: PduView::ConcludeOk, event: None },
        ),
        PduView::Read { invoke, domain, item } => Ok(
            read_outcome(variables, invoke, domain, item),
        ),
        PduView::Write { invoke, domain, item, data } => Ok(
            write_outcome(variables, invoke, domain, item, data),
        ),
        _ => Err(ErrorView::NotARequest(request)),
    }
}

/// What was received, as it was read.
pub type Received = Result<PduView, ProtocolError>;

/// The outcome of what was received.
pub open spec fn outcome_of_received(variables: Variables, received: Received) -> Result<
    Outcome,
    ErrorView,
> {
    match received {
        Err(error) => Err(ErrorView::Protocol(error)),
        Ok(request) => outcome_of(variables, request),
    }
}

/// The outcome of a message.
pub open spec fn outcome_of_message(variables: Variables, message: Seq<u8>) -> Result<
    Outcome,
    ErrorView,
> {
    outcome_of_received(variables, mms::pdu_of(message))
}

/// What a session comes to by serving: the variables after it, the answers
/// it gave, and the error that ended it, if one did.
#[verifier::ext_equal]
pub struct Serving {
    pub variables: Variables,
    pub answers: Seq<PduView>,
    pub end: Result<(), ErrorView>,
}

/// Serving what was received, one after another, until the client concludes,
/// sends what is refused, or disconnects.
pub open spec fn serving(variables: Variables, received: Seq<Received>) -> Serving
    decreases received.len(),
{
    if received.len() == 0 {
        Serving { variables, answers: Seq::empty(), end: Ok(()) }
    } else {
        match outcome_of_received(variables, received[0]) {
            Err(error) => Serving { variables, answers: Seq::empty(), end: Err(error) },
            Ok(outcome) => if outcome.event is None {
                Serving {
                    variables: outcome.variables,
                    answers: seq![outcome.answer],
                    end: Ok(()),
                }
            } else {
                let later = serving(outcome.variables, received.skip(1));
                Serving {
                    variables: later.variables,
                    answers: seq![outcome.answer] + later.answers,
                    end: later.end,
                }
            },
        }
    }
}

/// Messages as they were read.
pub open spec fn as_read(messages: Seq<Seq<u8>>) -> Seq<Received> {
    messages.map_values(|message: Seq<u8>| mms::pdu_of(message))
}

/// Answers as they are sent.
pub open spec fn as_sent(answers: Seq<PduView>) -> Seq<Seq<u8>> {
    answers.map_values(|answer: PduView| mms::pdu_octets(answer))
}

/// Messages as sequences.
pub open spec fn messages_view(messages: Seq<Vec<u8>>) -> Seq<Seq<u8>> {
    messages.map_values(|message: Vec<u8>| message@)
}

/// What an event says, where there is one.
pub open spec fn event_view(event: Option<Event>) -> Option<EventView> {
    match event {
        Some(reported) => Some(reported@),
        None => None,
    }
}

/// One turn of a session: what to send, if anything, and what the client
/// asked, or nothing where it is done.
#[derive(Clone, Debug, PartialEq, Eq)]
pub struct Turn {
    pub answer: Option<Vec<u8>>,
    pub event: Option<Event>,
}

/// One variable and its name.
struct Variable {
    domain: String,
    item: String,
    bytes: Vec<u8>,
}

/// One client's worth of server.
pub struct Session {
    variables: Vec<Variable>,
}

spec fn name_at(held: Seq<Variable>, i: int) -> Name {
    (held[i].domain@, held[i].item@)
}

spec fn holds(held: Seq<Variable>, name: Name) -> bool {
    exists|i: int| 0 <= i < held.len() && #[trigger] name_at(held, i) == name
}

spec fn place_of(held: Seq<Variable>, name: Name) -> int {
    choose|i: int| 0 <= i < held.len() && #[trigger] name_at(held, i) == name
}

/// No two variables have one name.
spec fn distinct(held: Seq<Variable>) -> bool {
    forall|i: int, j: int|
        #![trigger name_at(held, i), name_at(held, j)]
        0 <= i < held.len() && 0 <= j < held.len() && name_at(held, i) == name_at(held, j) ==> i
            == j
}

spec fn variables_of(held: Seq<Variable>) -> Variables {
    Map::new(|name: Name| holds(held, name), |name: Name| held[place_of(held, name)].bytes@)
}

proof fn lemma_held_at(held: Seq<Variable>, i: int)
    requires
        distinct(held),
        0 <= i < held.len(),
    ensures
        variables_of(held).dom().contains(name_at(held, i)),
        variables_of(held)[name_at(held, i)] == held[i].bytes@,
{
    let name = name_at(held, i);
    let place = place_of(held, name);
    assert(holds(held, name));
    assert(name_at(held, place) == name);
}

proof fn lemma_not_held(held: Seq<Variable>, name: Name)
    requires
        forall|i: int| 0 <= i < held.len() ==> #[trigger] name_at(held, i) != name,
    ensures
        !variables_of(held).dom().contains(name),
{
}

/// A variable put last under a name of its own.
proof fn lemma_pushed(held: Seq<Variable>, last: Variable)
    requires
        distinct(held),
        !holds(held, (last.domain@, last.item@)),
    ensures
        distinct(held.push(last)),
        variables_of(held.push(last)) == variables_of(held).insert(
            (last.domain@, last.item@),
            last.bytes@,
        ),
{
    let now = held.push(last);
    let name = (last.domain@, last.item@);
    assert forall|i: int| 0 <= i < held.len() implies name_at(now, i) == name_at(held, i) by {}
    assert(name_at(now, held.len() as int) == name);
    assert forall|i: int, j: int|
        #![trigger name_at(now, i), name_at(now, j)]
        0 <= i < now.len() && 0 <= j < now.len() && name_at(now, i) == name_at(now, j) implies i
        == j by {
        if i < held.len() && j < held.len() {
            assert(name_at(held, i) == name_at(held, j));
        } else if i < held.len() {
            assert(name_at(held, i) == name);
        } else if j < held.len() {
            assert(name_at(held, j) == name);
        }
    }
    let after = variables_of(held).insert(name, last.bytes@);
    assert forall|other: Name| variables_of(now).dom().contains(other) == after.dom().contains(
        other,
    ) by {
        if holds(now, other) {
            let i = place_of(now, other);
            if i < held.len() {
                assert(name_at(held, i) == other);
            }
        }
        if holds(held, other) {
            let i = place_of(held, other);
            assert(name_at(now, i) == other);
        }
    }
    assert forall|other: Name| #[trigger] after.dom().contains(other) implies variables_of(
        now,
    )[other] == after[other] by {
        if other == name {
            lemma_held_at(now, held.len() as int);
        } else {
            let i = place_of(held, other);
            assert(holds(held, other));
            lemma_held_at(held, i);
            lemma_held_at(now, i);
        }
    }
    assert(variables_of(now) =~= after);
}

/// A variable replaced under its name.
proof fn lemma_replaced(held: Seq<Variable>, i: int, next: Variable)
    requires
        distinct(held),
        0 <= i < held.len(),
        name_at(held, i) == (next.domain@, next.item@),
    ensures
        distinct(held.update(i, next)),
        variables_of(held.update(i, next)) == variables_of(held).insert(
            name_at(held, i),
            next.bytes@,
        ),
{
    let now = held.update(i, next);
    let name = name_at(held, i);
    assert forall|j: int| 0 <= j < held.len() implies name_at(now, j) == name_at(held, j) by {}
    assert forall|j: int, k: int|
        #![trigger name_at(now, j), name_at(now, k)]
        0 <= j < now.len() && 0 <= k < now.len() && name_at(now, j) == name_at(now, k) implies j
        == k by {
        assert(name_at(held, j) == name_at(held, k));
    }
    let after = variables_of(held).insert(name, next.bytes@);
    assert forall|other: Name| variables_of(now).dom().contains(other) == after.dom().contains(
        other,
    ) by {
        if holds(now, other) {
            assert(name_at(held, place_of(now, other)) == other);
        }
        if holds(held, other) {
            assert(name_at(now, place_of(held, other)) == other);
        }
        assert(name_at(now, i) == name);
    }
    assert forall|other: Name| #[trigger] after.dom().contains(other) implies variables_of(
        now,
    )[other] == after[other] by {
        if other == name {
            lemma_held_at(now, i);
        } else {
            let j = place_of(held, other);
            assert(holds(held, other));
            lemma_held_at(held, j);
            lemma_held_at(now, j);
        }
    }
    assert(variables_of(now) =~= after);
}

impl View for Session {
    type V = Variables;

    closed spec fn view(&self) -> Variables {
        variables_of(self.variables@)
    }
}

impl Session {
    #[verifier::type_invariant]
    spec fn well_formed(self) -> bool {
        distinct(self.variables@)
    }

    /// A session that holds no variable.
    pub fn new() -> (session: Session)
        ensures
            session@ == Map::<Name, Seq<u8>>::empty(),
    {
        let session = Session { variables: Vec::new() };
        assert(session@ =~= Map::<Name, Seq<u8>>::empty());
        session
    }

    /// Where the variable of this name is held.
    fn place(&self, domain: &String, item: &String) -> (place: Option<usize>)
        ensures
            match place {
                Some(i) => i < self.variables@.len() && name_at(self.variables@, i as int) == (
                    domain@,
                    item@,
                ),
                None => !holds(self.variables@, (domain@, item@)),
            },
    {
        let mut i: usize = 0;
        while i < self.variables.len()
            invariant
                i <= self.variables@.len(),
                forall|j: int|
                    0 <= j < i ==> #[trigger] name_at(self.variables@, j) != (domain@, item@),
            decreases self.variables@.len() - i,
        {
            if self.variables[i].domain == *domain && self.variables[i].item == *item {
                return Some(i);
            }
            i = i + 1;
        }
        None
    }

    /// Hold `bytes` as `domain/item`.
    pub fn with_variable(self, domain: &str, item: &str, bytes: Vec<u8>) -> (session: Session)
        ensures
            session@ == self@.insert((domain@, item@), bytes@),
    {
        proof {
            use_type_invariant(&self);
        }
        let next = Variable { domain: domain.to_string(), item: item.to_string(), bytes };
        let place = self.place(&next.domain, &next.item);
        let mut variables = self.variables;
        match place {
            Some(i) => {
                proof {
                    lemma_replaced(variables@, i as int, next);
                }
                variables.set(i, next);
            },
            None => {
                proof {
                    lemma_pushed(variables@, next);
                }
                variables.push(next);
            },
        }
        Session { variables }
    }

    /// The bytes held as `domain/item`, as they are now.
    pub fn variable(&self, domain: &str, item: &str) -> (bytes: Option<&[u8]>)
        ensures
            match bytes {
                Some(held) => self@.dom().contains((domain@, item@)) && self@[(domain@, item@)]
                    == held@,
                None => !self@.dom().contains((domain@, item@)),
            },
    {
        proof {
            use_type_invariant(&*self);
        }
        match self.place(&domain.to_string(), &item.to_string()) {
            Some(i) => {
                proof {
                    lemma_held_at(self.variables@, i as int);
                }
                Some(self.variables[i].bytes.as_slice())
            },
            None => None,
        }
    }

    /// Serve a read.
    pub fn read(&self, invoke: u32, domain: String, item: String) -> (served: (Pdu, Event))
        ensures
            served.0@ == read_outcome(self@, invoke, domain@, item@).answer,
            Some(served.1@) == read_outcome(self@, invoke, domain@, item@).event,
    {
        match self.variable(domain.as_str(), item.as_str()) {
            Some(data) => (
                Pdu::ReadOk { invoke, data: slice_to_vec(data) },
                Event::Read { domain, item, served: true },
            ),
            None => (
                Pdu::ReadFailed { invoke, error: OBJECT_NON_EXISTENT },
                Event::Read { domain, item, served: false },
            ),
        }
    }

    /// Serve a write.
    pub fn write(&mut self, invoke: u32, domain: String, item: String, data: Vec<u8>) -> (served: (
        Pdu,
        Event,
    ))
        ensures
            final(self)@ == write_outcome(old(self)@, invoke, domain@, item@, data@).variables,
            served.0@ == write_outcome(old(self)@, invoke, domain@, item@, data@).answer,
            Some(served.1@) == write_outcome(old(self)@, invoke, domain@, item@, data@).event,
    {
        proof {
            use_type_invariant(&*self);
        }
        match self.place(&domain, &item) {
            Some(i) => {
                proof {
                    lemma_held_at(self.variables@, i as int);
                }
                let mut held: Vec<Variable> = Vec::new();
                std::mem::swap(&mut held, &mut self.variables);
                let next = Variable { domain: domain.clone(), item: item.clone(), bytes: data };
                proof {
                    lemma_replaced(held@, i as int, next);
                }
                held.set(i, next);
                self.variables = held;
                (Pdu::WriteOk { invoke }, Event::Written { domain, item, served: true })
            },
            None => {
                proof {
                    lemma_not_held(self.variables@, (domain@, item@));
                }
                (
                    Pdu::WriteFailed { invoke, error: OBJECT_NON_EXISTENT },
                    Event::Written { domain, item, served: false },
                )
            },
        }
    }

    /// Answer a PDU, and say what it was, or nothing where the client
    /// concluded. A PDU that is not a request changes nothing.
    pub fn answer(&mut self, request: Pdu) -> (answered: Result<(Pdu, Option<Event>), Error>)
        ensures
            match answered {
                Ok((answer, event)) => outcome_of(old(self)@, request@) == Ok::<
                    Outcome,
                    ErrorView,
                >(
                    (Outcome {
                        variables: final(self)@,
                        answer: answer@,
                        event: event_view(event),
                    }),
                ),
                Err(e) => final(self)@ == old(self)@ && outcome_of(old(self)@, request@) == Err::<
                    Outcome,
                    ErrorView,
                >(e@),
            },
    {
        match request {
            Pdu::Initiate => Ok((Pdu::InitiateOk, Some(Event::Initiated))),
            Pdu::Conclude => Ok((Pdu::ConcludeOk, None)),
            Pdu::Read { invoke, domain, item } => {
                let (answer, event) = self.read(invoke, domain, item);
                Ok((answer, Some(event)))
            },
            Pdu::Write { invoke, domain, item, data } => {
                let (answer, event) = self.write(invoke, domain, item, data);
                Ok((answer, Some(event)))
            },
            other => Err(Error::NotARequest(other)),
        }
    }

    /// Answer what was received and say what it was. Nothing received, as
    /// when the client disconnected, is not answered; that it concluded is
    /// answered and not reported. What is not a request is an error.
    pub fn next_event(&mut self, received: Option<&[u8]>) -> (turn: Result<Turn, Error>)
        ensures
            match (received, turn) {
                (None, turned) => final(self)@ == old(self)@ && turned == Ok::<Turn, Error>(
                    (Turn { answer: None, event: None }),
                ),
                (Some(message), Ok(turned)) => {
                    let outcome = outcome_of_message(old(self)@, message@);
                    &&& outcome is Ok
                    &&& final(self)@ == outcome->Ok_0.variables
                    &&& turned.answer is Some
                    &&& turned.answer->Some_0@ == mms::pdu_octets(outcome->Ok_0.answer)
                    &&& event_view(turned.event) == outcome->Ok_0.event
                },
                (Some(message), Err(e)) => final(self)@ == old(self)@ && outcome_of_message(
                    old(self)@,
                    message@,
                ) == Err::<Outcome, ErrorView>(e@),
            },
    {
        let message = match received {
            Some(bytes) => bytes,
            None => return Ok(Turn { answer: None, event: None }),
        };
        let request = match Pdu::decode(message) {
            Ok(pdu) => pdu,
            Err(e) => return Err(Error::Protocol(e)),
        };
        match self.answer(request) {
            Ok((answer, event)) => Ok(Turn { answer: Some(answer.encode()), event }),
            Err(e) => Err(e),
        }
    }

    /// Answer the messages of a client in order, until it concludes or the
    /// last of them, after which it disconnected. The answers are given also
    /// where a message that is no request ends this with an error.
    pub fn serve(&mut self, received: &[Vec<u8>]) -> (served: (Vec<Vec<u8>>, Result<(), Error>))
        ensures
            ({
                let serving = serving(old(self)@, as_read(messages_view(received@)));
                &&& final(self)@ == serving.variables
                &&& messages_view(served.0@) == as_sent(serving.answers)
                &&& match served.1 {
                    Ok(_) => serving.end == Ok::<(), ErrorView>(()),
                    Err(e) => serving.end == Err::<(), ErrorView>(e@),
                }
            }),
    {
        let ghost all = as_read(messages_view(received@));
        let ghost whole = serving(self@, all);
        let mut answers: Vec<Vec<u8>> = Vec::new();
        let mut i: usize = 0;
        proof {
            assert(all.skip(0) =~= all);
            assert(messages_view(answers@) + as_sent(whole.answers) =~= as_sent(whole.answers));
        }
        while i < received.len()
            invariant
                i <= received@.len(),
                all == as_read(messages_view(received@)),
                whole == serving(old(self)@, all),
                whole.variables == serving(self@, all.skip(i as int)).variables,
                whole.end == serving(self@, all.skip(i as int)).end,
                as_sent(whole.answers) == messages_view(answers@) + as_sent(
                    serving(self@, all.skip(i as int)).answers,
                ),
            decreases received@.len() - i,
        {
            let ghost left = all.skip(i as int);
            let ghost before = self@;
            let ghost sent = messages_view(answers@);
            proof {
                assert(left[0] == mms::pdu_of(received@[i as int]@));
                assert(left.skip(1) =~= all.skip(i + 1));
            }
            match self.next_event(Some(received[i].as_slice())) {
                Err(e) => {
                    assert(sent + as_sent(serving(before, left).answers) =~= sent);
                    return (answers, Err(e));
                },
                Ok(turn) => {
                    let ghost later = serving(self@, all.skip(i + 1)).answers;
                    let ghost outcome = outcome_of_received(before, left[0])->Ok_0;
                    if let Some(answer) = turn.answer {
                        answers.push(answer);
                    }
                    assert(messages_view(answers@) =~= sent.push(
                        mms::pdu_octets(outcome.answer),
                    ));
                    if turn.event.is_none() {
                        assert(sent + as_sent(seq![outcome.answer]) =~= messages_view(answers@));
                        return (answers, Ok(()));
                    }
                    assert(sent + as_sent(seq![outcome.answer] + later) =~= messages_view(answers@)
                        + as_sent(later));
                },
            }
            i = i + 1;
        }
        assert(messages_view(answers@) + as_sent(Seq::empty()) =~= messages_view(answers@));
        (answers, Ok(()))
    }
}

/// An association is opened and concluded without a change to a variable.
pub proof fn opening_and_concluding_change_nothing(variables: Variables)
    ensures
        outcome_of(variables, PduView::Initiate) == Ok::<Outcome, ErrorView>(
            (Outcome {
                variables,
                answer: PduView::InitiateOk,
                event: Some(EventView::Initiated),
            }),
        ),
        outcome_of(variables, PduView::Conclude) == Ok::<Outcome, ErrorView>(
            (Outcome { variables, answer: PduView::ConcludeOk, event: None }),
        ),
{
}

/// A read of a variable that is held is answered with its bytes, whatever they
/// are, any other with error 10. Nothing changes.
pub proof fn a_read_is_answered_with_what_is_held(
    variables: Variables,
    invoke: u32,
    domain: Seq<char>,
    item: Seq<char>,
)
    ensures
        ({
            let outcome = outcome_of(variables, PduView::Read { invoke, domain, item });
            let held = variables.dom().contains((domain, item));
            &&& outcome is Ok
            &&& outcome->Ok_0.variables == variables
            &&& held ==> outcome->Ok_0.answer == (PduView::ReadOk {
                invoke,
                data: variables[(domain, item)],
            })
            &&& !held ==> outcome->Ok_0.answer == (PduView::ReadFailed { invoke, error: 10 })
            &&& outcome->Ok_0.event == Some(EventView::Read { domain, item, served: held })
        }),
{
}

/// A write of a variable that is held leaves it with the bytes that were
/// written, whatever they are, and every other as it was. Any other write
/// changes nothing and is answered with error 10.
pub proof fn a_write_leaves_what_was_written(
    variables: Variables,
    invoke: u32,
    domain: Seq<char>,
    item: Seq<char>,
    data: Seq<u8>,
)
    ensures
        ({
            let outcome = outcome_of(variables, PduView::Write { invoke, domain, item, data });
            let held = variables.dom().contains((domain, item));
            let after = outcome->Ok_0.variables;
            &&& outcome is Ok
            &&& after.dom() == variables.dom()
            &&& forall|name: Name|
                variables.dom().contains(name) ==> #[trigger] after[name] == (if name == (
                    domain,
                    item,
                ) {
                    data
                } else {
                    variables[name]
                })
            &&& held ==> outcome->Ok_0.answer == (PduView::WriteOk { invoke })
            &&& !held ==> after == variables && outcome->Ok_0.answer == (PduView::WriteFailed {
                invoke,
                error: 10,
            })
            &&& outcome->Ok_0.event == Some(EventView::Written { domain, item, served: held })
        }),
{
    let after = outcome_of(
        variables,
        PduView::Write { invoke, domain, item, data },
    )->Ok_0.variables;
    assert(after.dom() =~= variables.dom());
}

/// What is no request is refused as what it is, and a message is served as the
/// PDU that it carries or refused for the reason that it carries none.
pub proof fn only_requests_are_served(
    variables: Variables,
    pdu: PduView,
    error: ProtocolError,
    message: Seq<u8>,
)
    ensures
        !(pdu is Initiate || pdu is Conclude || pdu is Read || pdu is Write) ==> outcome_of(
            variables,
            pdu,
        ) == Err::<Outcome, ErrorView>(ErrorView::NotARequest(pdu)),
        outcome_of_received(variables, Ok(pdu)) == outcome_of(variables, pdu),
        outcome_of_received(variables, Err(error)) == Err::<Outcome, ErrorView>(
            ErrorView::Protocol(error),
        ),
        outcome_of_message(variables, message) == outcome_of_received(
            variables,
            mms::pdu_of(message),
        ),
{
}

/// What an event says is what its fields hold, and what is received and sent
/// is taken message by message.
pub proof fn events_and_messages_say_what_they_hold(
    event: Event,
    held: Seq<Vec<u8>>,
    messages: Seq<Seq<u8>>,
    answers: Seq<PduView>,
    i: int,
)
    ensures
        match event {
            Event::Initiated => event@ == EventView::Initiated,
            Event::Read { domain, item, served } => event@ == (EventView::Read {
                domain: domain@,
                item: item@,
                served,
            }),
            Event::Written { domain, item, served } => event@ == (EventView::Written {
                domain: domain@,
                item: item@,
                served,
            }),
        },
        event_view(Some(event)) == Some(event@),
        event_view(None) is None,
        messages_view(held).len() == held.len(),
        0 <= i < held.len() ==> messages_view(held)[i] == held[i]@,
        as_read(messages).len() == messages.len(),
        0 <= i < messages.len() ==> as_read(messages)[i] == mms::pdu_of(messages[i]),
        as_sent(answers).len() == answers.len(),
        0 <= i < answers.len() ==> as_sent(answers)[i] == mms::pdu_octets(answers[i]),
{
}

/// Serving goes request by request: each is answered before the next is
/// looked at, a conclude is answered and is the last, what is refused is not
/// answered and is the last, and where nothing more is received nothing more
/// is done.
pub proof fn serving_goes_request_by_request(
    variables: Variables,
    first: Received,
    others: Seq<Received>,
)
    ensures
        serving(variables, Seq::empty()) == (Serving {
            variables,
            answers: Seq::empty(),
            end: Ok(()),
        }),
        ({
            let whole = serving(variables, seq![first] + others);
            match outcome_of_received(variables, first) {
                Err(error) => {
                    &&& whole.variables == variables
                    &&& whole.answers == Seq::<PduView>::empty()
                    &&& whole.end == Err::<(), ErrorView>(error)
                },
                Ok(outcome) => {
                    let later = serving(outcome.variables, others);
                    &&& outcome.event is None ==> {
                        &&& whole.variables == outcome.variables
                        &&& whole.answers == seq![outcome.answer]
                        &&& whole.end == Ok::<(), ErrorView>(())
                    }
                    &&& outcome.event is Some ==> {
                        &&& whole.variables == later.variables
                        &&& whole.answers == seq![outcome.answer] + later.answers
                        &&& whole.end == later.end
                    }
                },
            }
        }),
{
    assert((seq![first] + others).skip(1) =~= others);
}

} // verus!
