use iec61850::endpoint::Iec61850Transport;
use iec61850::error::{Asked, Error, ProtocolError};
use iec61850::{Client, Event, Pdu, Session};
use std::time::Duration;

/// What the session answers to `request`.
fn answer(session: &mut Session, request: &[u8]) -> Vec<u8> {
    let turn = session.next_event(Some(request)).expect("served");
    turn.answer.expect("answered")
}

/// A client on a session that answered initiate.
fn open(session: &mut Session) -> Client {
    let answered = answer(session, &Client::initiate());
    Client::connect(Some(&answered)).expect("open")
}

fn read(client: &mut Client, session: &mut Session, domain: &str, item: &str) -> Result<Vec<u8>, Error> {
    let request = client.read(domain, item);
    let answered = answer(session, &request);
    client.read_answered(domain, item, Some(&answered))
}

fn write(
    client: &mut Client,
    session: &mut Session,
    domain: &str,
    item: &str,
    bytes: &[u8],
) -> Result<(), Error> {
    let request = client.write(domain, item, bytes);
    let answered = answer(session, &request);
    client.write_answered(domain, item, Some(&answered))
}

fn conclude(client: Client, session: &mut Session) {
    let turn = session.next_event(Some(&client.conclude())).expect("served");
    assert_eq!(turn.event, None);
    Client::concluded(turn.answer.as_deref()).expect("conclude");
}

/// One write of `bytes` from a near end, and what the far end took.
fn round(loopback: &Iec61850Transport, bytes: &[u8]) -> (String, Vec<u8>) {
    let near = loopback.near_end(Duration::from_secs(1));
    let mut session = loopback.far_end();
    let mut client = open(&mut session);
    write(&mut client, &mut session, near.domain(), near.item(), bytes).expect("write");
    conclude(client, &mut session);
    loopback.take_one(&session, "127.0.0.1:40000").expect("taken")
}

#[test]
fn a_client_initiates_reads_writes_and_is_refused_what_is_not_there() {
    let mut session = Session::new().with_variable("XMIP", "Stream", b"before".to_vec());
    let turn = session.next_event(Some(&Client::initiate())).expect("initiate");
    assert_eq!(turn.event, Some(Event::Initiated));
    let mut client = Client::connect(turn.answer.as_deref()).expect("c");
    assert_eq!(
        read(&mut client, &mut session, "XMIP", "Stream").expect("read"),
        b"before"
    );
    let long = vec![0x2a; 5000];
    write(&mut client, &mut session, "XMIP", "Stream", &long).expect("write");
    assert_eq!(
        read(&mut client, &mut session, "XMIP", "Stream").expect("back"),
        long
    );
    let missing = read(&mut client, &mut session, "XMIP", "Nothing").expect_err("no");
    assert!(missing.message().contains("10"), "{}", missing.message());
    assert!(write(&mut client, &mut session, "XMIP", "Nothing", b"x").is_err());
    conclude(client, &mut session);
    assert_eq!(
        session.variable("XMIP", "Stream").expect("held").len(),
        5000
    );
    assert_eq!(session.variable("XMIP", "Nothing"), None);
}

#[test]
fn a_client_that_answers_instead_of_asking_is_refused() {
    let mut session = Session::new();
    let error = session
        .next_event(Some(&Pdu::WriteOk { invoke: 1 }.encode()))
        .expect_err("refused");
    assert_eq!(error, Error::NotARequest(Pdu::WriteOk { invoke: 1 }));
}

#[test]
fn a_far_end_that_does_not_speak_mms_is_a_permanent_error() {
    assert_eq!(Client::initiate()[0], 0xa8);
    let error = Client::connect(Some(b"<34>1 - - - - - - not MMS")).err();
    assert_eq!(error, Some(Error::Protocol(ProtocolError::PastTheEnd)));
}

#[test]
fn a_loopback_round_writes_a_variable_on_an_association() {
    let loopback = Iec61850Transport::loopback(Duration::from_secs(5));
    let (origin_uri, bytes) = round(&loopback, b"an octet string");
    assert_eq!(bytes, b"an octet string");
    assert!(origin_uri.starts_with("iec61850://127.0.0.1:"));
    assert!(origin_uri.ends_with("/XMIP/Stream"));
    let long = vec![0x2a; 20_000];
    assert_eq!(round(&loopback, &long).1, long);
    assert_eq!(loopback.name(), "iec-61850");
}

/// The shapes a protocol breaks on.
fn edge_payloads() -> Vec<(&'static str, Vec<u8>)> {
    vec![
        ("empty", Vec::new()),
        ("one byte", vec![0x2a]),
        ("every byte", (0..=255).collect()),
        ("nul run", vec![0; 512]),
        ("high bytes", vec![0xff; 512]),
        ("crlf storm", b"\r\n".repeat(400)),
    ]
}

#[test]
fn the_loopback_returns_the_edges_whole() {
    let loopback = Iec61850Transport::loopback(Duration::from_secs(5));
    for (name, bytes) in edge_payloads() {
        let (_, arrived) = round(&loopback, &bytes);
        assert_eq!(arrived, bytes, "{name}");
    }
}

#[test]
fn a_session_reports_what_it_served() {
    let mut session = Session::new().with_variable("D", "I", vec![1]);
    let read = session.next_event(Some(
        &Pdu::Read { invoke: 4, domain: "D".into(), item: "I".into() }.encode(),
    ));
    let turn = read.expect("read");
    assert_eq!(turn.answer, Some(Pdu::ReadOk { invoke: 4, data: vec![1] }.encode()));
    assert_eq!(
        turn.event,
        Some(Event::Read { domain: "D".into(), item: "I".into(), served: true })
    );
    let write = Pdu::Write { invoke: 5, domain: "D".into(), item: "X".into(), data: vec![2] };
    let turn = session.next_event(Some(&write.encode())).expect("write");
    assert_eq!(turn.answer, Some(Pdu::WriteFailed { invoke: 5, error: 10 }.encode()));
    assert_eq!(
        turn.event,
        Some(Event::Written { domain: "D".into(), item: "X".into(), served: false })
    );
    assert_eq!(session.variable("D", "I"), Some(&[1u8][..]));
    assert_eq!(session.variable("D", "X"), None);
    let nothing = session.next_event(None).expect("disconnected");
    assert_eq!((nothing.answer, nothing.event), (None, None));
}

#[test]
fn a_write_leaves_every_other_variable() {
    let mut session = Session::new()
        .with_variable("D", "I", vec![1])
        .with_variable("I", "D", vec![2])
        .with_variable("D", "J", vec![3])
        .with_variable("D", "J", vec![4]);
    let mut client = open(&mut session);
    write(&mut client, &mut session, "I", "D", &[9]).expect("write");
    assert_eq!(session.variable("D", "I"), Some(&[1u8][..]));
    assert_eq!(session.variable("I", "D"), Some(&[9u8][..]));
    assert_eq!(session.variable("D", "J"), Some(&[4u8][..]));
}

#[test]
fn a_session_refuses_what_is_no_mms() {
    let mut session = Session::new().with_variable("D", "I", vec![1]);
    assert_eq!(
        session.next_event(Some(&[0xa2, 0x00])),
        Err(Error::Protocol(ProtocolError::UnknownPdu(0xa2)))
    );
    assert_eq!(session.variable("D", "I"), Some(&[1u8][..]));
}

#[test]
fn a_client_takes_only_the_answer_to_what_it_asked() {
    let mut session = Session::new();
    let mut client = open(&mut session);
    let request = client.read("D", "I");
    assert_eq!(
        Pdu::decode(&request),
        Ok(Pdu::Read { invoke: 1, domain: "D".into(), item: "I".into() })
    );
    assert_eq!(client.read_answered("D", "I", None), Err(Error::Closed));
    let stale = Pdu::ReadOk { invoke: 0, data: vec![1] }.encode();
    assert_eq!(client.read_answered("D", "I", Some(&stale)), Err(Error::AnotherInvoke));
    let none = Pdu::InitiateOk.encode();
    assert_eq!(client.read_answered("D", "I", Some(&none)), Err(Error::AnotherInvoke));
    let other = Pdu::WriteOk { invoke: 1 };
    assert_eq!(
        client.read_answered("D", "I", Some(&other.encode())),
        Err(Error::UnexpectedAnswer { asked: Asked::Read, answer: other })
    );
    let refused = Pdu::ReadFailed { invoke: 1, error: 3 }.encode();
    assert_eq!(
        client.read_answered("D", "I", Some(&refused)),
        Err(Error::Refused { domain: "D".into(), item: "I".into(), error: 3 })
    );
    let given = Pdu::ReadOk { invoke: 1, data: vec![7] }.encode();
    assert_eq!(client.read_answered("D", "I", Some(&given)), Ok(vec![7]));
    let request = client.write("D", "I", &[8]);
    assert_eq!(
        Pdu::decode(&request),
        Ok(Pdu::Write { invoke: 2, domain: "D".into(), item: "I".into(), data: vec![8] })
    );
    let other = Pdu::ReadOk { invoke: 2, data: vec![7] };
    assert_eq!(
        client.write_answered("D", "I", Some(&other.encode())),
        Err(Error::UnexpectedAnswer { asked: Asked::Write, answer: other })
    );
    let done = Pdu::WriteOk { invoke: 2 }.encode();
    assert_eq!(client.write_answered("D", "I", Some(&done)), Ok(()));
    assert_eq!(client.conclude(), [0x8b, 0x00]);
    assert_eq!(
        Client::concluded(Some(&Pdu::Initiate.encode())),
        Err(Error::UnexpectedAnswer { asked: Asked::Conclude, answer: Pdu::Initiate })
    );
    assert_eq!(Client::connect(None).err(), Some(Error::Closed));
}

#[test]
fn serving_adds_and_removes_no_variable() {
    let mut session = Session::new().with_variable("D", "I", vec![1]);
    let mut client = open(&mut session);
    assert!(write(&mut client, &mut session, "D", "J", &[2]).is_err());
    assert!(read(&mut client, &mut session, "D", "J").is_err());
    assert!(session.next_event(Some(&[0xa0, 0x00])).is_err());
    write(&mut client, &mut session, "D", "I", &[]).expect("write");
    conclude(client, &mut session);
    assert_eq!(session.variable("D", "I"), Some(&[][..]));
    assert_eq!(session.variable("D", "J"), None);
}

fn write_of(invoke: u32, data: &[u8]) -> Pdu {
    Pdu::Write { invoke, domain: "D".into(), item: "I".into(), data: data.to_vec() }
}

#[test]
fn the_last_write_before_the_end_is_held() {
    let mut session = Session::new().with_variable("D", "I", vec![0]).with_variable("D", "J", vec![9]);
    let messages = [
        Pdu::Initiate.encode(),
        write_of(1, &[1]).encode(),
        Pdu::Read { invoke: 2, domain: "D".into(), item: "I".into() }.encode(),
        write_of(3, &[2]).encode(),
        Pdu::Conclude.encode(),
        write_of(4, &[3]).encode(),
    ];
    let (answers, end) = session.serve(&messages);
    assert_eq!(end, Ok(()));
    assert_eq!(
        answers,
        vec![
            Pdu::InitiateOk.encode(),
            Pdu::WriteOk { invoke: 1 }.encode(),
            Pdu::ReadOk { invoke: 2, data: vec![1] }.encode(),
            Pdu::WriteOk { invoke: 3 }.encode(),
            Pdu::ConcludeOk.encode(),
        ]
    );
    assert_eq!(session.variable("D", "I"), Some(&[2u8][..]));
    assert_eq!(session.variable("D", "J"), Some(&[9u8][..]));
}

#[test]
fn serving_ends_where_the_client_is_refused_or_disconnects() {
    let mut session = Session::new().with_variable("D", "I", vec![0]);
    let answer = Pdu::WriteOk { invoke: 7 };
    let messages = [write_of(1, &[1]).encode(), answer.encode(), write_of(2, &[2]).encode()];
    let (answers, end) = session.serve(&messages);
    assert_eq!(answers, vec![Pdu::WriteOk { invoke: 1 }.encode()]);
    assert_eq!(end, Err(Error::NotARequest(answer)));
    assert_eq!(session.variable("D", "I"), Some(&[1u8][..]));
    let (answers, end) = session.serve(&[write_of(3, &[3]).encode()]);
    assert_eq!((answers.len(), end), (1, Ok(())));
    assert_eq!(session.serve(&[]), (Vec::new(), Ok(())));
    let (answers, end) = session.serve(&[vec![0xa2, 0x00]]);
    assert_eq!(answers, Vec::<Vec<u8>>::new());
    assert_eq!(end, Err(Error::Protocol(ProtocolError::UnknownPdu(0xa2))));
    assert_eq!(session.variable("D", "I"), Some(&[3u8][..]));
}
