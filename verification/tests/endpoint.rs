use iec61850::endpoint::{
    origin_uri, split_target, Iec61850Transport, CLIENT_TSAP, SERVER_TSAP, STREAM_DOMAIN,
    STREAM_ITEM,
};
use iec61850::error::Error;
use iec61850::{Client, Session};
use std::time::Duration;

/// What `session` answers to `request`.
fn answer(session: &mut Session, request: &[u8]) -> Vec<u8> {
    let turn = session.next_event(Some(request)).expect("serve");
    turn.answer.expect("answered")
}

#[test]
fn a_location_reads_and_writes_a_variable_the_target_names() {
    let mut first = Session::new().with_variable("XMIP", "Stream", b"held".to_vec());
    let mut second = Session::new().with_variable("Relay", "Setting", vec![0]);
    let near = Iec61850Transport::new("127.0.0.1:4102").timing_out_after(Duration::from_secs(2));

    let opened = answer(&mut first, &Client::initiate());
    let mut client = Client::connect(Some(&opened)).expect("open");
    let read = answer(&mut first, &client.read(near.domain(), near.item()));
    let held = client.read_answered(near.domain(), near.item(), Some(&read));
    assert_eq!(held.expect("read"), b"held");
    let concluded = answer(&mut first, &client.conclude());
    Client::concluded(Some(&concluded)).expect("conclude");
    assert_eq!(near.origin_uri(), "iec61850://127.0.0.1:4102/XMIP/Stream");

    let (address, domain, item) = near
        .resolve("iec61850://127.0.0.1:4102/Relay/Setting")
        .expect("full");
    assert_eq!(address, near.address());
    let opened = answer(&mut second, &Client::initiate());
    let mut client = Client::connect(Some(&opened)).expect("open");
    let written = answer(&mut second, &client.write(&domain, &item, &[7, 7]));
    client.write_answered(&domain, &item, Some(&written)).expect("write");
    let concluded = answer(&mut second, &client.conclude());
    Client::concluded(Some(&concluded)).expect("conclude");
    assert_eq!(
        second.variable("Relay", "Setting").map(<[u8]>::to_vec),
        Some(vec![7, 7])
    );

    assert_eq!(near.resolve("plc:102").expect("bare").1, "XMIP");
    assert!(near.resolve("iec61850://plc:102/only").is_err());
    assert!(near.resolve("iec61850://plc:102//item").is_err());
}

fn named(target: &str) -> (String, String, String) {
    Iec61850Transport::new("here")
        .about("Dom", "Itm")
        .resolve(target)
        .expect("resolved")
}

fn three(a: &str, b: &str, c: &str) -> (String, String, String) {
    (a.into(), b.into(), c.into())
}

#[test]
fn a_target_without_a_variable_is_about_the_configured_one() {
    assert_eq!(named("plc:102"), three("plc:102", "Dom", "Itm"));
    assert_eq!(named(""), three("", "Dom", "Itm"));
    assert_eq!(named("iec61850:/plc/a/b"), three("iec61850:/plc/a/b", "Dom", "Itm"));
    assert_eq!(named("iec61850://plc:102"), three("plc:102", "Dom", "Itm"));
    assert_eq!(named("iec61850://plc:102/"), three("plc:102", "Dom", "Itm"));
    assert_eq!(named("iec61850://"), three("", "Dom", "Itm"));
}

#[test]
fn a_target_in_full_names_its_variable() {
    assert_eq!(named("iec61850://plc:102/D/I"), three("plc:102", "D", "I"));
    assert_eq!(named("iec61850://plc/Zähler/a/b"), three("plc", "Zähler", "a/b"));
    assert_eq!(named(&origin_uri("h:1", "D", "I")), three("h:1", "D", "I"));
}

#[test]
fn a_path_that_names_no_variable_is_refused() {
    let near = Iec61850Transport::new("here");
    for target in [
        "iec61850://plc:102/only",
        "iec61850://plc:102//item",
        "iec61850://plc:102/domain/",
        "iec61850://plc:102//",
    ] {
        assert_eq!(
            near.resolve(target),
            Err(Error::NoVariableNamed { target: target.into() })
        );
    }
}

#[test]
fn what_a_target_came_apart_into_decides() {
    let near = Iec61850Transport::new("here");
    assert_eq!(split_target("iec61850://a/b/c"), Some(("a", "b/c")));
    assert_eq!(split_target("iec61850://a"), Some(("a", "")));
    assert_eq!(split_target("a/b/c"), None);
    assert_eq!(
        near.resolve_parts("t", Some(("a", "b/c"))),
        Ok(three("a", "b", "c"))
    );
    assert_eq!(near.resolve_parts("t", None), Ok(three("t", "XMIP", "Stream")));
}

#[test]
fn an_endpoint_says_what_it_was_made_with() {
    let plain = Iec61850Transport::new("h:1");
    assert_eq!(
        (plain.address(), plain.domain(), plain.item(), plain.timeout()),
        ("h:1", "XMIP", "Stream", None)
    );
    assert_eq!((STREAM_DOMAIN, STREAM_ITEM), ("XMIP", "Stream"));
    assert_eq!((CLIENT_TSAP, SERVER_TSAP), ([0, 1], [0, 1]));
    let near = plain.about("D", "I").near_end(Duration::from_secs(3));
    assert_eq!(
        (near.address(), near.domain(), near.item(), near.timeout()),
        ("127.0.0.1:0", "D", "I", Some(Duration::from_secs(3)))
    );
    let waiting = Iec61850Transport::loopback(Duration::from_secs(1)).near_end(Duration::ZERO);
    assert_eq!(waiting.timeout(), Some(Duration::from_secs(1)));
}

#[test]
fn a_far_end_takes_what_it_holds() {
    let end = Iec61850Transport::new("h:1").about("D", "I");
    let session = end.far_end();
    assert_eq!(session.variable("D", "I"), Some(&[][..]));
    assert_eq!(
        end.take_one(&session, "peer:9"),
        Ok(("iec61850://peer:9/D/I".to_string(), Vec::new()))
    );
    assert_eq!(end.take_one(&Session::new(), "peer:9"), Err(Error::VariableMissing));
}
