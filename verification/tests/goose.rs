use iec61850::ber::{self, context, tlv};
use iec61850::error::ProtocolError;
use iec61850::goose::{Frame, Goose, Mac, ETHERTYPE, MULTICAST};

fn sample() -> Goose {
    Goose {
        app_id: 0x0001,
        gocb_ref: "IED1CFG/LLN0$GO$gcb01".into(),
        time_allowed_to_live: 2000,
        dat_set: "IED1CFG/LLN0$DS1".into(),
        go_id: "IED1_gcb01".into(),
        time: [0x5f, 0x00, 0x00, 0x00, 0x80, 0x00, 0x00, 0x0a],
        st_num: 3,
        sq_num: 17,
        simulation: false,
        conf_rev: 1,
        nds_com: false,
        data: vec![b"trip".to_vec(), vec![0xff; 40]],
    }
}

#[test]
fn a_goose_frame_goes_over_the_ethernet_loopback_and_back() {
    let (near, far) = std::sync::mpsc::channel();
    let goose = sample();
    let frame = goose.frame(Mac([2, 0, 0, 0, 0, 1]));
    assert_eq!(frame.destination, Mac(MULTICAST));
    assert_eq!(frame.ethertype, ETHERTYPE);
    assert_eq!(
        &frame.payload[..4],
        &[0, 1, 0, u8::try_from(frame.payload.len()).expect("short")]
    );
    assert_eq!(frame.payload[8], 0x61, "goosePDU");
    near.send(frame).expect("transmit");
    let back: Frame = far.recv().expect("receive");
    assert_eq!(Goose::from_frame(&back).expect("goose"), Some(goose));
    let ip = Frame {
        destination: Mac(MULTICAST),
        source: Mac([2; 6]),
        ethertype: 0x0800,
        payload: vec![0x45],
    };
    assert_eq!(Goose::from_frame(&ip).expect("not goose"), None);
}

#[test]
fn what_is_not_goose_is_refused() {
    assert!(Goose::decode(&[0, 1, 0]).is_err(), "short");
    let mut wire = sample().encode();
    wire[3] ^= 1;
    assert!(Goose::decode(&wire).is_err(), "length");
    let mut wire = sample().encode();
    wire[8] = 0x30;
    assert!(Goose::decode(&wire).is_err(), "not a goosePDU");
    let mut no_count = sample();
    no_count.data.clear();
    let mut wire = no_count.encode();
    let at = wire.len() - 4;
    wire[at] = 0x89;
    assert!(Goose::decode(&wire).is_err(), "a stray entry");
    let mut goose = sample();
    goose.simulation = true;
    goose.nds_com = true;
    let wire = goose.encode();
    assert!(wire.windows(3).any(|w| w == [context(7, false), 1, 0xff]));
    assert_eq!(Goose::decode(&wire).expect("flags"), goose);
    assert_eq!(ber::BOOLEAN, 0x01, "the tag a bare BOOLEAN would carry");
}

fn small() -> Goose {
    Goose {
        app_id: 0x1234,
        gocb_ref: "C".into(),
        time_allowed_to_live: 128,
        dat_set: "D".into(),
        go_id: "G".into(),
        time: [1, 2, 3, 4, 5, 6, 7, 8],
        st_num: 0,
        sq_num: u32::MAX,
        simulation: true,
        conf_rev: 9,
        nds_com: false,
        data: vec![vec![0xaa], Vec::new()],
    }
}

#[test]
fn a_message_is_laid_out_field_by_field() {
    assert_eq!(
        small().encode(),
        [
            0x12, 0x34, 0x00, 62, 0, 0, 0, 0, 0x61, 52, 0x80, 1, b'C', 0x81, 2, 0x00, 0x80, 0x82, 1,
            b'D', 0x83, 1, b'G', 0x84, 8, 1, 2, 3, 4, 5, 6, 7, 8, 0x85, 1, 0, 0x86, 5, 0x00, 0xff,
            0xff, 0xff, 0xff, 0x87, 1, 0xff, 0x88, 1, 9, 0x89, 1, 0, 0x8a, 1, 2, 0xab, 5, 0x89, 1,
            0xaa, 0x89, 0,
        ]
    );
    assert_eq!(Goose::decode(&small().encode()), Ok(small()));
}

/// The payload of these fields.
fn payload(fields: &[(u8, Vec<u8>)]) -> Vec<u8> {
    let contents: Vec<u8> = fields.iter().flat_map(|(tag, c)| tlv(*tag, c)).collect();
    let pdu = tlv(0x61, &contents);
    let length = u16::try_from(8 + pdu.len()).expect("short");
    [vec![0, 1], length.to_be_bytes().to_vec(), vec![0; 4], pdu].concat()
}

fn fields() -> Vec<(u8, Vec<u8>)> {
    vec![
        (0x80, b"C".to_vec()),
        (0x81, vec![1]),
        (0x82, b"D".to_vec()),
        (0x83, b"G\xff".to_vec()),
        (0x84, vec![0; 8]),
        (0x85, vec![2]),
        (0x86, vec![3]),
        (0x87, vec![7]),
        (0x88, vec![4]),
        (0x89, vec![]),
        (0x8a, vec![1]),
        (0xab, tlv(0x89, &[5])),
    ]
}

#[test]
fn a_message_is_read_field_by_field() {
    let goose = Goose::decode(&payload(&fields())).expect("goose");
    assert_eq!(goose.gocb_ref, "C");
    assert_eq!(goose.go_id, "G\u{fffd}");
    assert_eq!((goose.time_allowed_to_live, goose.st_num, goose.sq_num), (1, 2, 3));
    assert!(goose.simulation, "not zero");
    assert!(!goose.nds_com, "empty");
    assert_eq!(goose.data, vec![vec![5]]);
    let mut turned = fields();
    turned.reverse();
    assert_eq!(Goose::decode(&payload(&turned)), Ok(goose));
}

#[test]
fn a_missing_field_is_named() {
    for missing in 0..12 {
        let mut left = fields();
        let (tag, _) = left.remove(missing);
        assert_eq!(
            Goose::decode(&payload(&left)),
            Err(ProtocolError::NoElement(tag)),
            "{missing}"
        );
    }
}

#[test]
fn every_refusal_of_a_message_has_its_input() {
    let with = |at: usize, contents: Vec<u8>| {
        let mut changed = fields();
        changed[at].1 = contents;
        Goose::decode(&payload(&changed)).expect_err("refused")
    };
    assert_eq!(Goose::decode(&[0; 7]), Err(ProtocolError::ShortHeader));
    assert_eq!(Goose::decode(&[0; 8]), Err(ProtocolError::PayloadLength));
    assert_eq!(
        Goose::decode(&[0, 1, 0, 10, 0, 0, 0, 0, 0x30, 0]),
        Err(ProtocolError::NotGoosePdu)
    );
    assert_eq!(with(4, vec![0; 7]), ProtocolError::TimeWidth);
    assert_eq!(with(11, tlv(0x85, &[5])), ProtocolError::EntryNotOctetString);
    assert_eq!(with(10, vec![2]), ProtocolError::EntryCount);
    assert_eq!(with(10, vec![]), ProtocolError::IntegerWidth);
    assert_eq!(with(5, vec![0xff]), ProtocolError::NumberRange);
    assert_eq!(with(8, vec![1, 0, 0, 0, 0]), ProtocolError::NumberRange);
}

#[test]
fn a_payload_of_another_length_is_refused() {
    let wire = sample().encode();
    for left in 0..wire.len() {
        assert!(Goose::decode(&wire[..left]).is_err(), "{left}");
    }
    let after = [wire, vec![0]].concat();
    assert_eq!(Goose::decode(&after), Err(ProtocolError::PayloadLength));
}

#[test]
fn a_message_too_long_for_its_header_is_refused() {
    let mut goose = small();
    goose.data = vec![vec![0; 70_000]];
    let wire = goose.encode();
    assert_eq!(&wire[2..4], &[0xff, 0xff]);
    assert_eq!(Goose::decode(&wire), Err(ProtocolError::PayloadLength));
}
