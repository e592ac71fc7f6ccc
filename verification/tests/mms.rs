use iec61850::ber::tlv;
use iec61850::error::ProtocolError;
use iec61850::mms::{Pdu, MAX_PDU, OBJECT_NON_EXISTENT, VERSION};

#[test]
fn every_pdu_round_trips() {
    let pdus = [
        Pdu::Initiate,
        Pdu::InitiateOk,
        Pdu::Write {
            invoke: 7,
            domain: "XMIP".into(),
            item: "Stream".into(),
            data: vec![1, 2, 3],
        },
        Pdu::WriteOk { invoke: 7 },
        Pdu::WriteFailed {
            invoke: 8,
            error: OBJECT_NON_EXISTENT,
        },
        Pdu::Read {
            invoke: 9,
            domain: "XMIP".into(),
            item: "Stream".into(),
        },
        Pdu::ReadOk {
            invoke: 9,
            data: vec![0; 300],
        },
        Pdu::ReadFailed {
            invoke: 10,
            error: OBJECT_NON_EXISTENT,
        },
        Pdu::Conclude,
        Pdu::ConcludeOk,
    ];
    for pdu in pdus {
        assert_eq!(Pdu::decode(&pdu.encode()).expect("decode"), pdu, "{pdu:?}");
    }
    assert_eq!(Pdu::Conclude.encode(), [0x8b, 0x00]);
    assert_eq!(Pdu::WriteOk { invoke: 1 }.invoke(), Some(1));
    assert!(Pdu::Initiate.invoke().is_none());
}

#[test]
fn a_write_is_laid_out_as_the_specification_says() {
    let write = Pdu::Write {
        invoke: 1,
        domain: "D".into(),
        item: "I".into(),
        data: b"x".to_vec(),
    }
    .encode();
    assert_eq!(write[0], 0xa0, "confirmed-RequestPDU");
    assert_eq!(&write[2..5], &[0x02, 0x01, 0x01], "invokeID 1");
    assert_eq!(write[5], 0xa5, "write");
    assert_eq!(write[7], 0xa0, "listOfVariable");
    assert_eq!(write[9], 0x30, "SEQUENCE");
    assert_eq!(write[11], 0xa0, "name");
    assert_eq!(write[13], 0xa1, "domain-specific");
    assert_eq!(&write[15..18], &[0x1a, 0x01, b'D']);
    assert_eq!(&write[18..21], &[0x1a, 0x01, b'I']);
    assert_eq!(write[21], 0xa0, "listOfData");
    assert_eq!(&write[23..26], &[0x89, 0x01, b'x'], "octet-string");
}

#[test]
fn what_is_not_mms_this_transport_speaks_is_refused() {
    assert!(Pdu::decode(&[]).is_err(), "empty");
    assert!(Pdu::decode(&[0xa2, 0x00]).is_err(), "unconfirmed-PDU");
    assert!(Pdu::decode(&[0x8b, 0x00, 0x00]).is_err(), "bytes after");
    assert!(Pdu::decode(&[0xa0, 0x02, 0x05, 0x00]).is_err(), "no invoke");
    assert!(
        Pdu::decode(&[0xa0, 0x05, 0x02, 0x01, 0x01, 0xa6, 0x00]).is_err(),
        "service 6"
    );
    assert!(
        Pdu::decode(&[0xa0, 0x03, 0x02, 0x01, 0x01]).is_err(),
        "no service"
    );
    let vmd = Pdu::Read {
        invoke: 1,
        domain: "D".into(),
        item: "I".into(),
    };
    let mut bytes = vmd.encode();
    bytes[15] = 0xa0;
    assert!(Pdu::decode(&bytes).is_err(), "a vmd-specific name");
    assert!(
        Pdu::decode(&[0xa1, 0x05, 0x02, 0x01, 0x01, 0xa5, 0x00]).is_err(),
        "empty write result"
    );
}

#[test]
fn initiate_states_what_both_sides_propose() {
    assert_eq!((VERSION, MAX_PDU), (1, 65_000));
    assert_eq!(
        Pdu::Initiate.encode(),
        [
            0xa8, 0x21, 0x80, 0x03, 0x00, 0xfd, 0xe8, 0x81, 0x01, 0x01, 0x82, 0x01, 0x01, 0x83,
            0x01, 0x00, 0xa4, 0x11, 0x80, 0x01, 0x01, 0x81, 0x03, 0x05, 0x00, 0x00, 0x82, 0x07,
            0x03, 0x00, 0x00, 0x00, 0x00, 0x00, 0x00,
        ]
    );
    let mut answer = Pdu::Initiate.encode();
    answer[0] = 0xa9;
    assert_eq!(Pdu::InitiateOk.encode(), answer);
}

#[test]
fn answers_are_laid_out_octet_by_octet() {
    assert_eq!(
        Pdu::WriteOk { invoke: 300 }.encode(),
        [0xa1, 0x08, 0x02, 0x02, 0x01, 0x2c, 0xa5, 0x02, 0x81, 0x00]
    );
    assert_eq!(
        Pdu::ReadFailed { invoke: 1, error: 10 }.encode(),
        [0xa1, 0x0a, 0x02, 0x01, 0x01, 0xa4, 0x05, 0xa1, 0x03, 0x80, 0x01, 0x0a]
    );
    assert_eq!(
        Pdu::ReadOk { invoke: u32::MAX, data: vec![5] }.encode(),
        [
            0xa1, 0x0e, 0x02, 0x05, 0x00, 0xff, 0xff, 0xff, 0xff, 0xa4, 0x05, 0xa1, 0x03, 0x89,
            0x01, 0x05,
        ]
    );
}

fn confirmed(tag: u8, service: u8, body: &[u8]) -> Vec<u8> {
    tlv(tag, &[tlv(0x02, &[1]), tlv(service, body)].concat())
}

fn name(domain: &[u8], item: &[u8]) -> Vec<u8> {
    let parts = [tlv(0x1a, domain), tlv(0x1a, item)].concat();
    tlv(0xa0, &tlv(0x30, &tlv(0xa0, &tlv(0xa1, &parts))))
}

#[test]
fn every_refusal_has_its_input() {
    let refused = |bytes: &[u8]| Pdu::decode(bytes).expect_err("refused");
    assert_eq!(refused(&[0x8b, 0, 0]), ProtocolError::BytesAfterPdu);
    assert_eq!(refused(&[0xa2, 0]), ProtocolError::UnknownPdu(0xa2));
    assert_eq!(refused(&[0xa0, 2, 5, 0]), ProtocolError::NoInvoke);
    assert_eq!(refused(&[0xa0, 5, 2, 1, 0xff, 0xa4, 0]), ProtocolError::InvokeRange);
    assert_eq!(
        refused(&tlv(0xa0, &tlv(0x02, &[1, 0, 0, 0, 0]))),
        ProtocolError::InvokeRange
    );
    assert_eq!(refused(&tlv(0xa0, &tlv(0x02, &[]))), ProtocolError::IntegerWidth);
    assert_eq!(
        refused(&tlv(0xa0, &[2, 1, 1, 0xa4, 0, 0])),
        ProtocolError::BytesAfterService
    );
    assert_eq!(
        refused(&confirmed(0xa1, 0xa6, &[])),
        ProtocolError::UnknownService(0xa6)
    );
    assert_eq!(
        refused(&confirmed(0xa0, 0xa4, &[0x05, 0x00])),
        ProtocolError::NoElement(0xa1)
    );
    let vmd = tlv(0xa0, &tlv(0x30, &tlv(0xa0, &tlv(0xa0, &[]))));
    assert_eq!(
        refused(&confirmed(0xa0, 0xa4, &tlv(0xa1, &vmd))),
        ProtocolError::NotDomainSpecific
    );
    let one = tlv(0xa0, &tlv(0x30, &tlv(0xa0, &tlv(0xa1, &tlv(0x1a, b"D")))));
    assert_eq!(
        refused(&confirmed(0xa0, 0xa4, &tlv(0xa1, &one))),
        ProtocolError::NotTwoIdentifiers
    );
    let data = tlv(0xa0, &tlv(0x85, &[1]));
    assert_eq!(
        refused(&confirmed(0xa0, 0xa5, &[name(b"D", b"I"), data].concat())),
        ProtocolError::NotOctetString
    );
    assert_eq!(
        refused(&confirmed(0xa1, 0xa5, &[0x82, 0x00])),
        ProtocolError::NoWriteResult
    );
    assert_eq!(
        refused(&confirmed(0xa1, 0xa4, &tlv(0xa1, &[0x85, 0x00]))),
        ProtocolError::NoAccessResult
    );
}

#[test]
fn a_null_is_success_too() {
    assert_eq!(
        Pdu::decode(&confirmed(0xa1, 0xa5, &[0x05, 0x00])),
        Ok(Pdu::WriteOk { invoke: 1 })
    );
}

#[test]
fn names_that_are_not_utf8_are_replaced() {
    let wire = confirmed(0xa0, 0xa4, &tlv(0xa1, &name(b"D\xffX", "Zähler".as_bytes())));
    assert_eq!(
        Pdu::decode(&wire),
        Ok(Pdu::Read {
            invoke: 1,
            domain: "D\u{fffd}X".into(),
            item: "Zähler".into(),
        })
    );
}

#[test]
fn extreme_values_round_trip() {
    for pdu in [
        Pdu::Write {
            invoke: u32::MAX,
            domain: String::new(),
            item: "Größe/€".into(),
            data: vec![0xff; 70_000],
        },
        Pdu::WriteFailed { invoke: 0, error: i64::MIN },
        Pdu::ReadFailed { invoke: 128, error: i64::MAX },
        Pdu::ReadOk { invoke: 255, data: Vec::new() },
    ] {
        assert_eq!(Pdu::decode(&pdu.encode()), Ok(pdu));
    }
}

#[test]
fn a_pdu_cut_anywhere_is_refused() {
    let wire = Pdu::Read { invoke: 1, domain: "D".into(), item: "I".into() }.encode();
    for left in 0..wire.len() {
        assert!(Pdu::decode(&wire[..left]).is_err(), "{left}");
    }
}

#[test]
fn no_two_pdus_are_written_alike() {
    let pdus = [
        Pdu::Initiate,
        Pdu::InitiateOk,
        Pdu::Conclude,
        Pdu::ConcludeOk,
        Pdu::WriteOk { invoke: 1 },
        Pdu::WriteOk { invoke: 2 },
        Pdu::WriteFailed { invoke: 1, error: 10 },
        Pdu::ReadFailed { invoke: 1, error: 10 },
        Pdu::ReadOk { invoke: 1, data: vec![10] },
        Pdu::Read { invoke: 1, domain: "AB".into(), item: "C".into() },
        Pdu::Read { invoke: 1, domain: "A".into(), item: "BC".into() },
    ];
    for (i, one) in pdus.iter().enumerate() {
        for (j, other) in pdus.iter().enumerate() {
            assert_eq!(one.encode() == other.encode(), i == j, "{one:?} {other:?}");
        }
    }
}

#[test]
fn an_initiate_of_another_shape_is_refused() {
    let bits = [0x05, 0x00, 0x00];
    let proposal = |version: &[u8]| {
        [tlv(0x80, version), tlv(0x81, &bits), tlv(0x82, &bits)].concat()
    };
    let one = tlv(0x81, &[1]);
    let two = tlv(0x82, &[1]);
    let four = tlv(0xa4, &proposal(&[1]));
    for (tag, pdu) in [(0xa8, Pdu::Initiate), (0xa9, Pdu::InitiateOk)] {
        let decoded = |contents: Vec<u8>| Pdu::decode(&tlv(tag, &contents));
        let refused = Err(ProtocolError::InitiateShape);
        let full = [one.clone(), two.clone(), four.clone()].concat();
        assert_eq!(decoded(full), Ok(pdu));
        assert_eq!(decoded(Vec::new()), refused, "no parameter");
        assert_eq!(decoded([two.clone(), four.clone()].concat()), refused, "no [1]");
        assert_eq!(decoded([one.clone(), four.clone()].concat()), refused, "no [2]");
        assert_eq!(decoded([one.clone(), two.clone()].concat()), refused, "no [4]");
        let empty = [tlv(0x81, &[]), two.clone(), four.clone()].concat();
        assert_eq!(decoded(empty), refused, "no integer");
        for inner in [
            proposal(&[2]),
            proposal(&[]),
            [tlv(0x80, &[1]), tlv(0x82, &bits)].concat(),
            [tlv(0x80, &[1]), tlv(0x81, &bits)].concat(),
            [tlv(0x80, &[1]), tlv(0x81, &[8, 0]), tlv(0x82, &bits)].concat(),
            [tlv(0x80, &[1]), tlv(0x81, &[]), tlv(0x82, &bits)].concat(),
            vec![0x80],
        ] {
            let other = [one.clone(), two.clone(), tlv(0xa4, &inner)].concat();
            assert_eq!(decoded(other), refused, "{inner:?}");
        }
        assert_eq!(decoded(vec![0x81]), refused, "cut short");
    }
    assert!(Pdu::decode(&[0xa8, 0x00]).is_err());
}

#[test]
fn what_stands_out_of_its_place_is_refused() {
    let refused = |bytes: Vec<u8>| Pdu::decode(&bytes).expect_err("refused");
    assert_eq!(refused(vec![0x8b, 1, 0]), ProtocolError::NullContents);
    assert_eq!(refused(vec![0x8c, 1, 0]), ProtocolError::NullContents);
    assert_eq!(
        refused(confirmed(0xa1, 0xa5, &[0x81, 1, 0])),
        ProtocolError::NullContents
    );
    for body in [
        vec![0x81, 0, 0x81, 0],
        vec![0x05, 0, 0],
        vec![0x80, 1, 3, 0x80, 1, 3],
    ] {
        assert_eq!(refused(confirmed(0xa1, 0xa5, &body)), ProtocolError::BytesAfterElement);
    }
    let datum = tlv(0x89, &[7]);
    let twice = [datum.clone(), datum.clone()].concat();
    assert_eq!(
        refused(confirmed(0xa1, 0xa4, &tlv(0xa0, &datum))),
        ProtocolError::Misplaced(0xa0)
    );
    assert_eq!(
        refused(confirmed(0xa1, 0xa4, &tlv(0xa1, &twice))),
        ProtocolError::BytesAfterElement
    );
    assert_eq!(
        refused(confirmed(0xa1, 0xa4, &[tlv(0xa1, &datum), vec![5, 0]].concat())),
        ProtocolError::BytesAfterElement
    );
    let failure = tlv(0x80, &[3]);
    assert_eq!(
        refused(confirmed(0xa1, 0xa4, &tlv(0xa1, &[failure.clone(), failure].concat()))),
        ProtocolError::BytesAfterElement
    );
    let list = name(b"D", b"I");
    let data = tlv(0xa0, &datum);
    let wrote = |parts: [&[u8]; 2]| refused(confirmed(0xa0, 0xa5, &parts.concat()));
    assert_eq!(wrote([&tlv(0xa1, &[]), &data]), ProtocolError::Misplaced(0xa1));
    assert_eq!(wrote([&list, &tlv(0xa1, &datum)]), ProtocolError::Misplaced(0xa1));
    assert_eq!(wrote([&list, &twice_of(&data)]), ProtocolError::BytesAfterElement);
    assert_eq!(wrote([&list, &tlv(0xa0, &twice)]), ProtocolError::BytesAfterElement);
    let sequence = &list[2..];
    assert_eq!(
        wrote([&tlv(0xa0, &twice_of(sequence)), &data]),
        ProtocolError::BytesAfterElement
    );
    assert_eq!(
        wrote([&tlv(0xa0, &tlv(0x31, &sequence[2..])), &data]),
        ProtocolError::Misplaced(0x31)
    );
    let object_name = &sequence[2..];
    assert_eq!(
        wrote([&tlv(0xa0, &tlv(0x30, &tlv(0xa2, &object_name[2..]))), &data]),
        ProtocolError::Misplaced(0xa2)
    );
    let domain_specific = &object_name[2..];
    let doubled = tlv(0xa0, &tlv(0x30, &tlv(0xa0, &twice_of(domain_specific))));
    assert_eq!(wrote([&doubled, &data]), ProtocolError::BytesAfterElement);
}

fn twice_of(bytes: &[u8]) -> Vec<u8> {
    [bytes, bytes].concat()
}

#[test]
fn a_read_is_its_specification_and_nothing_after() {
    let specification = tlv(0xa1, &name(b"D", b"I"));
    let with_result = tlv(0x80, &[0]);
    let read = Pdu::Read { invoke: 1, domain: "D".into(), item: "I".into() };
    let body = [with_result.clone(), specification.clone()].concat();
    assert_eq!(Pdu::decode(&confirmed(0xa0, 0xa4, &body)), Ok(read));
    for body in [
        twice_of(&specification),
        [specification.clone(), with_result].concat(),
        [tlv(0x80, &[]), specification.clone()].concat(),
        [tlv(0x82, &[0]), specification].concat(),
    ] {
        assert_eq!(
            Pdu::decode(&confirmed(0xa0, 0xa4, &body)),
            Err(ProtocolError::ReadShape)
        );
    }
}

#[test]
fn an_alternate_access_is_passed_over() {
    let list = name(b"D", b"I");
    let object_name = &list[4..];
    let listed = |after: &[u8]| tlv(0xa0, &tlv(0x30, &[object_name, after].concat()));
    let access = tlv(0xa5, &tlv(0x81, &[3]));
    let data = tlv(0xa0, &tlv(0x89, &[7]));
    let read = |list: Vec<u8>| Pdu::decode(&confirmed(0xa0, 0xa4, &tlv(0xa1, &list)));
    let write = |list: Vec<u8>| {
        Pdu::decode(&confirmed(0xa0, 0xa5, &[list, data.clone()].concat()))
    };
    assert_eq!(
        read(listed(&access)),
        Ok(Pdu::Read { invoke: 1, domain: "D".into(), item: "I".into() })
    );
    assert_eq!(
        write(listed(&access)),
        Ok(Pdu::Write { invoke: 1, domain: "D".into(), item: "I".into(), data: vec![7] })
    );
    for (after, error) in [
        (twice_of(&access), ProtocolError::BytesAfterElement),
        (tlv(0x85, &[]), ProtocolError::Misplaced(0x85)),
        (object_name.to_vec(), ProtocolError::Misplaced(0xa0)),
        (vec![0xa5], ProtocolError::CutAtLength),
    ] {
        assert_eq!(read(listed(&after)), Err(error), "{after:?}");
        assert_eq!(write(listed(&after)), Err(error), "{after:?}");
    }
}
