use iec61850::ber::{
    context, find, integer, read, read_all, read_integer, tlv, BIT_STRING, INTEGER, NULL,
    OCTET_STRING, SEQUENCE, VISIBLE_STRING,
};
use iec61850::error::ProtocolError;

#[test]
fn short_and_long_lengths_round_trip() {
    let short = tlv(OCTET_STRING, b"hi");
    assert_eq!(short, [0x04, 2, b'h', b'i']);
    let long = tlv(OCTET_STRING, &[7; 300]);
    assert_eq!(&long[..4], &[0x04, 0x82, 0x01, 0x2c]);
    let (tag, contents, rest) = read(&long).expect("read");
    assert_eq!((tag, contents.len(), rest.len()), (OCTET_STRING, 300, 0));
    let two = [short.clone(), tlv(NULL, &[])].concat();
    let all = read_all(&two).expect("all");
    assert_eq!(all, vec![(OCTET_STRING, &b"hi"[..]), (NULL, &[][..])]);
    assert_eq!(find(&all, NULL).expect("null"), &[]);
    assert!(find(&all, INTEGER).is_err());
    assert_eq!(context(5, true), 0xa5);
    assert_eq!(context(9, false), 0x89);
}

#[test]
fn integers_are_the_shortest_twos_complement() {
    for (value, bytes) in [
        (0, vec![0x00]),
        (1, vec![0x01]),
        (127, vec![0x7f]),
        (128, vec![0x00, 0x80]),
        (-1, vec![0xff]),
        (-129, vec![0xff, 0x7f]),
        (65_535, vec![0x00, 0xff, 0xff]),
    ] {
        assert_eq!(integer(value), bytes, "{value}");
        assert_eq!(read_integer(&bytes).expect("read"), value, "{value}");
    }
    assert!(read_integer(&[]).is_err());
    assert!(read_integer(&[0; 9]).is_err());
}

#[test]
fn what_is_not_ber_is_refused() {
    assert!(read(&[]).is_err(), "no tag");
    assert!(read(&[0x04]).is_err(), "no length");
    assert!(read(&[0x1f, 0x01, 0x00]).is_err(), "multi-byte tag");
    assert!(read(&[0x04, 0x80]).is_err(), "indefinite");
    assert!(read(&[0x04, 0x85, 0, 0, 0, 0, 0]).is_err(), "too wide");
    assert!(
        read(&[0x04, 0x82, 0x01]).is_err(),
        "cut short in the length"
    );
    assert!(read(&[0x04, 0x05, 1, 2]).is_err(), "past the end");
}

#[test]
fn every_error_of_a_read_has_its_input() {
    assert_eq!(read(&[]), Err(ProtocolError::CutAtTag));
    assert_eq!(read(&[0x3f, 0x00]), Err(ProtocolError::MultiByteTag));
    assert_eq!(read(&[0x1f]), Err(ProtocolError::MultiByteTag));
    assert_eq!(read(&[0x04]), Err(ProtocolError::CutAtLength));
    assert_eq!(read(&[0x04, 0x80]), Err(ProtocolError::IndefiniteOrTooWide));
    assert_eq!(read(&[0x04, 0x85]), Err(ProtocolError::IndefiniteOrTooWide));
    assert_eq!(read(&[0x04, 0xff]), Err(ProtocolError::IndefiniteOrTooWide));
    assert_eq!(read(&[0x04, 0x84, 0, 0, 0]), Err(ProtocolError::CutInLength));
    assert_eq!(read(&[0x04, 0x01]), Err(ProtocolError::PastTheEnd));
    assert_eq!(
        read(&[0x04, 0x84, 0xff, 0xff, 0xff, 0xff]),
        Err(ProtocolError::PastTheEnd)
    );
    assert_eq!(read_all(&[0x05, 0x00, 0x04]), Err(ProtocolError::CutAtLength));
    assert_eq!(read_integer(&[]), Err(ProtocolError::IntegerWidth));
    assert_eq!(read_integer(&[1; 9]), Err(ProtocolError::IntegerWidth));
    assert_eq!(find(&[], 0x82), Err(ProtocolError::NoElement(0x82)));
}

#[test]
fn a_length_need_not_be_the_shortest_to_be_read() {
    assert_eq!(
        read(&[0x04, 0x84, 0, 0, 0, 1, 9, 8]),
        Ok((0x04, &[9u8][..], &[8u8][..]))
    );
    assert_eq!(read(&[0x04, 0x00]), Ok((0x04, &[][..], &[][..])));
}

#[test]
fn lengths_change_form_at_their_limits() {
    assert_eq!(&tlv(0x04, &[0; 127])[..2], &[0x04, 0x7f]);
    assert_eq!(&tlv(0x04, &[0; 128])[..3], &[0x04, 0x81, 0x80]);
    assert_eq!(&tlv(0x04, &[0; 255])[..3], &[0x04, 0x81, 0xff]);
    assert_eq!(&tlv(0x04, &[0; 256])[..4], &[0x04, 0x82, 0x01, 0x00]);
    assert_eq!(&tlv(0x04, &vec![0; 65_536])[..5], &[0x04, 0x83, 1, 0, 0]);
}

#[test]
fn the_widest_integers_read_back() {
    assert_eq!(integer(i64::MAX), [0x7f, 0xff, 0xff, 0xff, 0xff, 0xff, 0xff, 0xff]);
    assert_eq!(integer(i64::MIN), [0x80, 0, 0, 0, 0, 0, 0, 0]);
    for value in [i64::MIN, i64::MAX, -128, -32_768, 32_767, 32_768, 1 << 55] {
        assert_eq!(read_integer(&integer(value)), Ok(value));
    }
    assert_eq!(read_integer(&[0xff, 0xff, 0xff]), Ok(-1));
    assert_eq!(read_integer(&[0x00, 0x00, 0x2a]), Ok(42));
}

#[test]
fn the_first_of_several_is_found() {
    let wire = [tlv(INTEGER, &[1]), tlv(INTEGER, &[2]), tlv(NULL, &[])].concat();
    let all = read_all(&wire).expect("all");
    assert_eq!(find(&all, INTEGER), Ok(&[1u8][..]));
    assert_eq!(find(&all, NULL), Ok(&[][..]));
}

#[test]
fn an_element_cut_anywhere_is_refused() {
    let wire = tlv(SEQUENCE, &[7; 200]);
    for left in 0..wire.len() {
        assert!(read(&wire[..left]).is_err(), "{left}");
    }
    assert!(read(&wire).is_ok());
}

#[test]
fn context_tags_keep_five_bits() {
    assert_eq!(context(0, false), 0x80);
    assert_eq!(context(31, true), 0xbf);
    assert_eq!(context(32, false), 0x80);
    assert_eq!(context(255, true), 0xbf);
    assert_eq!((BIT_STRING, VISIBLE_STRING), (0x03, 0x1a));
}
