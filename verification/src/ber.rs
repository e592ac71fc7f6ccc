//! The basic encoding rules, as much of ISO 8825-1 as MMS and GOOSE use:
//! a one-byte tag, a length in short or long form, the contents. Nothing
//! here knows what a tag means.

use vstd::arithmetic::power;
use vstd::prelude::*;
use vstd::slice::slice_subrange;

use crate::error::ProtocolError;
use crate::octets;

verus! {

/// The universal tags this library writes.
pub const BOOLEAN: u8 = 0x01;

pub const INTEGER: u8 = 0x02;

pub const BIT_STRING: u8 = 0x03;

pub const OCTET_STRING: u8 = 0x04;

pub const NULL: u8 = 0x05;

pub const VISIBLE_STRING: u8 = 0x1a;

pub const SEQUENCE: u8 = 0x30;

/// The octet of the context-specific tag `[n]`: the class in the two high
/// bits, then whether it is constructed, then the low five bits of `n`.
pub open spec fn context_tag(n: u8, constructed: bool) -> u8 {
    (0x80 + (if constructed { 0x20int } else { 0 }) + n % 32) as u8
}

/// The octets of a length: the short form below 128, else the long form of
/// as few digits as there are.
pub open spec fn length_octets(length: nat) -> Seq<u8> {
    if length < 0x80 {
        seq![length as u8]
    } else {
        seq![(0x80 + octets::digits(length).len()) as u8] + octets::digits(length)
    }
}

/// One element: tag, length, contents.
pub open spec fn element_octets(tag: u8, contents: Seq<u8>) -> Seq<u8> {
    seq![tag] + length_octets(contents.len()) + contents
}

/// A tag of the one-byte form.
pub open spec fn one_byte_tag(tag: u8) -> bool {
    tag % 32 != 31
}

/// What `octets` give as a length: how many of them it takes, and its value.
pub open spec fn length_at(octets: Seq<u8>) -> Result<(nat, nat), ProtocolError> {
    if octets.len() == 0 {
        Err(ProtocolError::CutAtLength)
    } else if octets[0] < 0x80 {
        Ok((1, octets[0] as nat))
    } else if octets[0] == 0x80 || octets[0] > 0x84 {
        Err(ProtocolError::IndefiniteOrTooWide)
    } else if octets.len() < 1 + (octets[0] - 0x80) {
        Err(ProtocolError::CutInLength)
    } else {
        let count = (octets[0] - 0x80) as nat;
        Ok((1 + count, octets::unsigned_value(octets.subrange(1, 1 + count as int))))
    }
}

/// The first element of `octets`: its tag, its contents, and what follows.
pub open spec fn first_element(octets: Seq<u8>) -> Result<
    (u8, Seq<u8>, Seq<u8>),
    ProtocolError,
> {
    if octets.len() == 0 {
        Err(ProtocolError::CutAtTag)
    } else if !one_byte_tag(octets[0]) {
        Err(ProtocolError::MultiByteTag)
    } else {
        match length_at(octets.skip(1)) {
            Err(error) => Err(error),
            Ok((width, length)) => {
                let start = 1 + width as int;
                if octets.len() < start + length {
                    Err(ProtocolError::PastTheEnd)
                } else {
                    Ok(
                        (
                            octets[0],
                            octets.subrange(start, start + length as int),
                            octets.skip(start + length as int),
                        ),
                    )
                }
            },
        }
    }
}

/// Every element of `octets`, in order, as tag and contents.
pub open spec fn all_elements(octets: Seq<u8>) -> Result<Seq<(u8, Seq<u8>)>, ProtocolError>
    decreases octets.len(),
{
    if octets.len() == 0 {
        Ok(Seq::empty())
    } else {
        match first_element(octets) {
            Err(error) => Err(error),
            Ok((tag, contents, rest)) => match all_elements(rest) {
                Err(error) => Err(error),
                Ok(others) => Ok(seq![(tag, contents)] + others),
            },
        }
    }
}

/// The contents of the first of `elements` tagged `tag`.
pub open spec fn first_tagged(elements: Seq<(u8, Seq<u8>)>, tag: u8) -> Result<
    Seq<u8>,
    ProtocolError,
>
    decreases elements.len(),
{
    if elements.len() == 0 {
        Err(ProtocolError::NoElement(tag))
    } else if elements[0].0 == tag {
        Ok(elements[0].1)
    } else {
        first_tagged(elements.skip(1), tag)
    }
}

/// The value that an INTEGER's contents carry.
pub open spec fn integer_value(contents: Seq<u8>) -> Result<int, ProtocolError> {
    if 1 <= contents.len() <= 8 {
        Ok(octets::signed_value(contents))
    } else {
        Err(ProtocolError::IntegerWidth)
    }
}

/// What [`read`] returned, with its slices as sequences.
pub open spec fn element_view(read: Result<(u8, &[u8], &[u8]), ProtocolError>) -> Result<
    (u8, Seq<u8>, Seq<u8>),
    ProtocolError,
> {
    match read {
        Ok((tag, contents, rest)) => Ok((tag, contents@, rest@)),
        Err(error) => Err(error),
    }
}

/// Elements with their contents as sequences.
pub open spec fn elements_view(elements: Seq<(u8, &[u8])>) -> Seq<(u8, Seq<u8>)> {
    elements.map_values(|element: (u8, &[u8])| (element.0, element.1@))
}

/// A context-specific tag: `[n]`, constructed or primitive.
pub fn context(n: u8, constructed: bool) -> (tag: u8)
    ensures
        tag == context_tag(n, constructed),
{
    let form: u8 = if constructed {
        0x20
    } else {
        0x00
    };
    0x80 + form + n % 32
}

/// One tag, length and contents.
pub fn tlv(tag: u8, contents: &[u8]) -> (out: Vec<u8>)
    ensures
        out@ == element_octets(tag, contents@),
{
    let mut out: Vec<u8> = Vec::new();
    out.push(tag);
    let length: usize = contents.len();
    if length < 0x80 {
        out.push(length as u8);
    } else {
        let mut long: Vec<u8> = Vec::new();
        octets::push_digits(&mut long, length);
        proof {
            octets::lemma_range_of_eight();
            octets::lemma_digits_width(length as nat, 8);
        }
        out.push(0x80 + long.len() as u8);
        out.extend_from_slice(long.as_slice());
    }
    out.extend_from_slice(contents);
    assert(out@ =~= element_octets(tag, contents@));
    out
}

/// An INTEGER's contents: the shortest two's complement.
pub fn integer(value: i64) -> (contents: Vec<u8>)
    ensures
        contents@ == octets::integer_octets(value as int),
        1 <= contents@.len() <= 8,
{
    let mut contents: Vec<u8> = Vec::new();
    octets::push_integer(&mut contents, value);
    assert(contents@ =~= octets::integer_octets(value as int));
    proof {
        octets::lemma_half_range_of_eight();
        octets::lemma_integer_octets_width(value as int, 8);
    }
    contents
}

/// The value an INTEGER's contents carry. Empty contents, and contents
/// wider than sixty-four bits, are an error.
pub fn read_integer(contents: &[u8]) -> (value: Result<i64, ProtocolError>)
    ensures
        match value {
            Ok(v) => integer_value(contents@) == Ok::<int, ProtocolError>(v as int),
            Err(e) => integer_value(contents@) == Err::<int, ProtocolError>(e),
        },
{
    let width: usize = contents.len();
    if width == 0 || width > 8 {
        return Err(ProtocolError::IntegerWidth);
    }
    let mut value: i64 = if contents[0] >= 0x80 {
        contents[0] as i64 - 256
    } else {
        contents[0] as i64
    };
    let mut i: usize = 1;
    while i < width
        invariant
            1 <= i <= width <= 8,
            width == contents@.len(),
            value == octets::signed_value(contents@.take(i as int)),
        decreases width - i,
    {
        proof {
            let next = contents@.take(i + 1);
            assert(next.drop_last() =~= contents@.take(i as int));
            octets::lemma_signed_value_bounds(contents@.take(i as int));
            octets::lemma_signed_value_bounds(next);
            octets::lemma_half_range_grows((i + 1) as nat, 8);
            octets::lemma_half_range_of_eight();
        }
        value = value * 256 + contents[i] as i64;
        i = i + 1;
    }
    assert(contents@.take(width as int) =~= contents@);
    Ok(value)
}

/// What a long-form length of `count` digits at the front of `octets` gives.
fn read_digits(octets: &[u8], count: usize) -> (value: usize)
    requires
        count <= 4,
        count <= octets@.len(),
    ensures
        value == octets::unsigned_value(octets@.take(count as int)),
{
    let mut value: usize = 0;
    let mut i: usize = 0;
    while i < count
        invariant
            i <= count <= 4,
            count <= octets@.len(),
            value == octets::unsigned_value(octets@.take(i as int)),
        decreases count - i,
    {
        proof {
            let next = octets@.take(i + 1);
            assert(next.drop_last() =~= octets@.take(i as int));
            octets::lemma_unsigned_value_bound(next);
            octets::lemma_range_grows((i + 1) as nat, 4);
            octets::lemma_range_of_four();
        }
        value = value * 256 + octets[i] as usize;
        i = i + 1;
    }
    value
}

/// The first element of `bytes`: its tag, its contents, and what follows.
/// An element cut short, a tag of the multi-byte form, and a length past the
/// end are errors.
pub fn read(bytes: &[u8]) -> (element: Result<(u8, &[u8], &[u8]), ProtocolError>)
    ensures
        element_view(element) == first_element(bytes@),
{
    let size: usize = bytes.len();
    if size == 0 {
        return Err(ProtocolError::CutAtTag);
    }
    let tag: u8 = bytes[0];
    if tag % 32 == 31 {
        return Err(ProtocolError::MultiByteTag);
    }
    let octets = slice_subrange(bytes, 1, size);
    assert(octets@ =~= bytes@.skip(1));
    if octets.len() == 0 {
        return Err(ProtocolError::CutAtLength);
    }
    let first: u8 = octets[0];
    let mut start: usize = 2;
    let mut length: usize = first as usize;
    if first >= 0x80 {
        let count: usize = (first - 0x80) as usize;
        if count == 0 || count > 4 {
            return Err(ProtocolError::IndefiniteOrTooWide);
        }
        if octets.len() - 1 < count {
            return Err(ProtocolError::CutInLength);
        }
        let after = slice_subrange(octets, 1, octets.len());
        assert(after@.take(count as int) =~= octets@.subrange(1, 1 + count));
        length = read_digits(after, count);
        start = 2 + count;
    }
    if size - start < length {
        return Err(ProtocolError::PastTheEnd);
    }
    let contents = slice_subrange(bytes, start, start + length);
    let rest = slice_subrange(bytes, start + length, size);
    assert(rest@ =~= bytes@.skip(start + length));
    Ok((tag, contents, rest))
}

/// Every element of `bytes`, in order, as tag and contents. Errors are those
/// of [`read`].
pub fn read_all(bytes: &[u8]) -> (elements: Result<Vec<(u8, &[u8])>, ProtocolError>)
    ensures
        match elements {
            Ok(found) => all_elements(bytes@) == Ok::<Seq<(u8, Seq<u8>)>, ProtocolError>(
                elements_view(found@),
            ),
            Err(e) => all_elements(bytes@) == Err::<Seq<(u8, Seq<u8>)>, ProtocolError>(e),
        },
{
    let mut out: Vec<(u8, &[u8])> = Vec::new();
    let mut left = bytes;
    while left.len() > 0
        invariant
            match all_elements(left@) {
                Ok(others) => all_elements(bytes@) == Ok::<Seq<(u8, Seq<u8>)>, ProtocolError>(
                    elements_view(out@) + others,
                ),
                Err(e) => all_elements(bytes@) == Err::<Seq<(u8, Seq<u8>)>, ProtocolError>(e),
            },
        decreases left@.len(),
    {
        let ghost before = elements_view(out@);
        match read(left) {
            Err(e) => {
                return Err(e);
            },
            Ok((tag, contents, rest)) => {
                out.push((tag, contents));
                proof {
                    assert(elements_view(out@) =~= before.push((tag, contents@)));
                    if let Ok(others) = all_elements(rest@) {
                        assert(before + (seq![(tag, contents@)] + others) =~= elements_view(out@)
                            + others);
                    }
                }
                left = rest;
            },
        }
    }
    assert(elements_view(out@) + Seq::empty() =~= elements_view(out@));
    Ok(out)
}

/// The contents of the element in `elements` tagged `tag`; the first, where
/// there are several. None is an error.
pub fn find<'a>(elements: &[(u8, &'a [u8])], tag: u8) -> (found: Result<&'a [u8], ProtocolError>)
    ensures
        match found {
            Ok(contents) => first_tagged(elements_view(elements@), tag) == Ok::<
                Seq<u8>,
                ProtocolError,
            >(contents@),
            Err(e) => first_tagged(elements_view(elements@), tag) == Err::<Seq<u8>, ProtocolError>(
                e,
            ),
        },
{
    let ghost all = elements_view(elements@);
    let mut i: usize = 0;
    assert(all.skip(0) =~= all);
    while i < elements.len()
        invariant
            i <= elements@.len(),
            all == elements_view(elements@),
            first_tagged(all, tag) == first_tagged(all.skip(i as int), tag),
        decreases elements@.len() - i,
    {
        assert(all.skip(i as int).skip(1) =~= all.skip(i + 1));
        if elements[i].0 == tag {
            return Ok(elements[i].1);
        }
        i = i + 1;
    }
    Err(ProtocolError::NoElement(tag))
}

/// The elements written one after another.
pub open spec fn elements_octets(elements: Seq<(u8, Seq<u8>)>) -> Seq<u8>
    decreases elements.len(),
{
    if elements.len() == 0 {
        Seq::empty()
    } else {
        element_octets(elements[0].0, elements[0].1) + elements_octets(elements.skip(1))
    }
}

pub proof fn lemma_elements_octets_push(elements: Seq<(u8, Seq<u8>)>, last: (u8, Seq<u8>))
    ensures
        elements_octets(elements.push(last)) == elements_octets(elements) + element_octets(
            last.0,
            last.1,
        ),
    decreases elements.len(),
{
    if elements.len() == 0 {
        reveal_with_fuel(elements_octets, 2);
        assert(elements_octets(elements.push(last)) =~= element_octets(last.0, last.1));
    } else {
        lemma_elements_octets_push(elements.skip(1), last);
        assert(elements.push(last).skip(1) =~= elements.skip(1).push(last));
        assert(elements_octets(elements.push(last)) =~= elements_octets(elements)
            + element_octets(last.0, last.1));
    }
}

pub proof fn lemma_elements_octets_step(elements: Seq<(u8, Seq<u8>)>, i: int)
    requires
        0 <= i < elements.len(),
    ensures
        elements_octets(elements.take(i + 1)) == elements_octets(elements.take(i))
            + element_octets(elements[i].0, elements[i].1),
{
    lemma_elements_octets_push(elements.take(i), elements[i]);
    assert(elements.take(i + 1) =~= elements.take(i).push(elements[i]));
}

/// What a reader takes back: a tag of one byte, a length of four at most.
pub open spec fn readable(tag: u8, contents: Seq<u8>) -> bool {
    one_byte_tag(tag) && contents.len() <= u32::MAX
}

/// An element reads back as it was written, whatever follows it.
pub proof fn an_element_reads_back(tag: u8, contents: Seq<u8>, rest: Seq<u8>)
    requires
        readable(tag, contents),
    ensures
        first_element(element_octets(tag, contents) + rest) == Ok::<
            (u8, Seq<u8>, Seq<u8>),
            ProtocolError,
        >((tag, contents, rest)),
{
    let written = element_octets(tag, contents) + rest;
    let after_tag = written.skip(1);
    let length = length_octets(contents.len());
    assert(after_tag =~= length + contents + rest);
    if contents.len() >= 0x80 {
        let long = octets::digits(contents.len());
        octets::lemma_range_of_four();
        octets::lemma_digits_width(contents.len(), 4);
        octets::lemma_digits_value(contents.len());
        assert(after_tag.subrange(1, 1 + long.len() as int) =~= long);
    }
    let start = 1 + length.len() as int;
    assert(written.subrange(start, start + contents.len()) =~= contents);
    assert(written.skip(start + contents.len()) =~= rest);
}

/// An element with nothing after it reads back so.
pub proof fn an_element_alone_reads_back(tag: u8, contents: Seq<u8>)
    requires
        readable(tag, contents),
    ensures
        first_element(element_octets(tag, contents)) == Ok::<
            (u8, Seq<u8>, Seq<u8>),
            ProtocolError,
        >((tag, contents, Seq::empty())),
{
    an_element_reads_back(tag, contents, Seq::empty());
    assert(element_octets(tag, contents) + Seq::empty() =~= element_octets(tag, contents));
}

/// Contents whose length takes more than four bytes are written, and refused
/// by the reader.
pub proof fn an_element_too_long_is_refused(tag: u8, contents: Seq<u8>, rest: Seq<u8>)
    requires
        one_byte_tag(tag),
        u32::MAX < contents.len() <= u64::MAX,
    ensures
        first_element(element_octets(tag, contents) + rest) == Err::<
            (u8, Seq<u8>, Seq<u8>),
            ProtocolError,
        >(ProtocolError::IndefiniteOrTooWide),
{
    let written = element_octets(tag, contents) + rest;
    octets::lemma_range_of_four();
    octets::lemma_range_of_eight();
    octets::lemma_digits_width_exceeds(contents.len(), 4);
    octets::lemma_digits_width(contents.len(), 8);
    assert(written.skip(1)[0] == length_octets(contents.len())[0]);
}

/// Elements written one after another read back in order, each as it was
/// written.
pub proof fn elements_read_back(elements: Seq<(u8, Seq<u8>)>)
    requires
        forall|i: int|
            0 <= i < elements.len() ==> readable((#[trigger] elements[i]).0, elements[i].1),
    ensures
        all_elements(elements_octets(elements)) == Ok::<Seq<(u8, Seq<u8>)>, ProtocolError>(
            elements,
        ),
    decreases elements.len(),
{
    if elements.len() > 0 {
        let others = elements.skip(1);
        assert forall|i: int| 0 <= i < others.len() implies readable(
            (#[trigger] others[i]).0,
            others[i].1,
        ) by {
            assert(others[i] == elements[i + 1]);
        }
        elements_read_back(others);
        an_element_reads_back(elements[0].0, elements[0].1, elements_octets(others));
        assert(seq![elements[0]] + others =~= elements);
    } else {
        assert(elements =~= Seq::empty());
    }
}

/// An integer reads back as the value that was written.
pub proof fn an_integer_reads_back(value: i64)
    ensures
        integer_value(octets::integer_octets(value as int)) == Ok::<int, ProtocolError>(
            value as int,
        ),
{
    octets::lemma_integer_octets_value(value as int);
    octets::lemma_half_range_of_eight();
    octets::lemma_integer_octets_width(value as int, 8);
}

/// What a read returns is the end of what was read: the contents, then what
/// follows, after a header of two to six bytes.
pub proof fn a_read_loses_only_the_header(octets: Seq<u8>)
    requires
        first_element(octets) is Ok,
    ensures
        ({
            let (tag, contents, rest) = first_element(octets)->Ok_0;
            let header = octets.len() - contents.len() - rest.len();
            &&& 2 <= header <= 6
            &&& tag == octets[0]
            &&& octets.skip(header) == contents + rest
        }),
{
    let (tag, contents, rest) = first_element(octets)->Ok_0;
    let header = octets.len() - contents.len() - rest.len();
    assert(octets.skip(header) =~= contents + rest);
}

/// A context-specific tag has the one-byte form for every number below 31.
pub proof fn context_tags_have_one_byte(n: u8, constructed: bool)
    requires
        n < 31,
    ensures
        one_byte_tag(context_tag(n, constructed)),
{
}

/// An element is found by its tag where no element before it has that tag.
pub proof fn the_first_of_its_tag_is_found(elements: Seq<(u8, Seq<u8>)>, i: int)
    requires
        0 <= i < elements.len(),
        forall|j: int| 0 <= j < i ==> (#[trigger] elements[j]).0 != elements[i].0,
    ensures
        first_tagged(elements, elements[i].0) == Ok::<Seq<u8>, ProtocolError>(elements[i].1),
    decreases i,
{
    if i > 0 {
        let others = elements.skip(1);
        assert(elements[0].0 != elements[i].0);
        assert forall|j: int| 0 <= j < i - 1 implies (#[trigger] others[j]).0 != others[i - 1].0 by {
            assert(others[j] == elements[j + 1]);
        }
        the_first_of_its_tag_is_found(others, i - 1);
    }
}

/// A tag that no element has is not found.
pub proof fn a_tag_that_is_not_there_is_not_found(elements: Seq<(u8, Seq<u8>)>, tag: u8)
    requires
        forall|i: int| 0 <= i < elements.len() ==> (#[trigger] elements[i]).0 != tag,
    ensures
        first_tagged(elements, tag) == Err::<Seq<u8>, ProtocolError>(
            ProtocolError::NoElement(tag),
        ),
    decreases elements.len(),
{
    if elements.len() > 0 {
        let others = elements.skip(1);
        assert(elements[0].0 != tag);
        assert forall|i: int| 0 <= i < others.len() implies (#[trigger] others[i]).0 != tag by {
            assert(others[i] == elements[i + 1]);
        }
        a_tag_that_is_not_there_is_not_found(others, tag);
    }
}

/// Each of the elements written one after another is shorter than them all.
pub proof fn lemma_contents_are_shorter(elements: Seq<(u8, Seq<u8>)>, i: int)
    requires
        0 <= i < elements.len(),
    ensures
        elements[i].1.len() < elements_octets(elements).len(),
    decreases elements.len(),
{
    if i > 0 {
        lemma_contents_are_shorter(elements.skip(1), i - 1);
    }
}

/// An element cut short is refused, and the error says where it was cut.
pub proof fn an_element_cut_short_is_refused(tag: u8, contents: Seq<u8>, left: int)
    requires
        readable(tag, contents),
        0 <= left < element_octets(tag, contents).len(),
    ensures
        first_element(element_octets(tag, contents).take(left)) == Err::<
            (u8, Seq<u8>, Seq<u8>),
            ProtocolError,
        >(
            if left == 0 {
                ProtocolError::CutAtTag
            } else if left == 1 {
                ProtocolError::CutAtLength
            } else if left < 1 + length_octets(contents.len()).len() {
                ProtocolError::CutInLength
            } else {
                ProtocolError::PastTheEnd
            },
        ),
{
    let written = element_octets(tag, contents);
    let cut = written.take(left);
    let length = length_octets(contents.len());
    if left >= 2 {
        let after_tag = cut.skip(1);
        assert(after_tag[0] == length[0]);
        if contents.len() >= 0x80 {
            let long = octets::digits(contents.len());
            octets::lemma_range_of_four();
            octets::lemma_digits_width(contents.len(), 4);
            octets::lemma_digits_value(contents.len());
            if left >= 1 + length.len() {
                assert(after_tag.subrange(1, 1 + long.len() as int) =~= long);
            }
        }
    }
}

/// The universal tags have the numbers that ISO 8825-1 gives them, SEQUENCE
/// in the constructed form.
pub proof fn universal_tags_have_their_numbers()
    ensures
        BOOLEAN == 1,
        INTEGER == 2,
        BIT_STRING == 3,
        OCTET_STRING == 4,
        NULL == 5,
        VISIBLE_STRING == 26,
        SEQUENCE == 0x20 + 16,
{
}

/// A context-specific tag holds the class in its two high bits, whether it is
/// constructed in the next, and the low five bits of its number.
pub proof fn a_context_tag_holds_class_form_and_number(n: u8)
    ensures
        context_tag(n, false) == 0x80u8 | (n & 0x1fu8),
        context_tag(n, true) == 0x80u8 | 0x20u8 | (n & 0x1fu8),
{
    assert(0x80u8 | (n & 0x1fu8) == 0x80 + n % 32) by (bit_vector);
    assert(0x80u8 | 0x20u8 | (n & 0x1fu8) == 0xa0 + n % 32) by (bit_vector);
}

/// An element is its tag, then its length, then its contents octet by octet.
/// A length below 128 is one octet. Any other is an octet that says how many
/// follow, and then as few as hold it, the most significant first.
pub proof fn an_element_is_tag_length_and_contents(tag: u8, contents: Seq<u8>)
    requires
        contents.len() <= u64::MAX,
    ensures
        ({
            let written = element_octets(tag, contents);
            let length = contents.len() as int;
            let header = written.len() - length;
            let width = (header - 2) as nat;
            &&& header >= 2
            &&& written[0] == tag
            &&& written.skip(header) == contents
            &&& length < 0x80 ==> header == 2 && written[1] == length
            &&& length >= 0x80 ==> {
                &&& header > 2
                &&& written[1] == 0x80 + width
                &&& length < power::pow(256, width)
                &&& width > 1 ==> power::pow(256, (width - 1) as nat) <= length
                &&& forall|i: int|
                    2 <= i < header ==> #[trigger] written[i] == (length / power::pow(
                        256,
                        (header - 1 - i) as nat,
                    )) % 256
            }
        }),
{
    let written = element_octets(tag, contents);
    let header = written.len() - contents.len();
    assert(written.skip(header) =~= contents);
    if contents.len() >= 0x80 {
        let long = octets::digits(contents.len());
        octets::digits_stand_in_their_places(contents.len());
        octets::lemma_range_of_eight();
        octets::lemma_digits_width(contents.len(), 8);
        assert forall|i: int| 2 <= i < header implies #[trigger] written[i] == (contents.len()
            as int / power::pow(256, (header - 1 - i) as nat)) % 256 by {
            assert(written[i] == long[i - 2]);
        }
    }
}

/// An element whose length has the short form ends where that octet says.
pub proof fn a_short_length_is_its_octet(octets: Seq<u8>)
    requires
        octets.len() >= 2,
        octets[0] % 32 != 31,
        octets[1] < 0x80,
    ensures
        first_element(octets) == (if octets.len() < 2 + octets[1] {
            Err(ProtocolError::PastTheEnd)
        } else {
            Ok(
                (
                    octets[0],
                    octets.subrange(2, 2 + octets[1] as int),
                    octets.skip(2 + octets[1] as int),
                ),
            )
        }),
{
    assert(octets.skip(1)[0] == octets[1]);
}

/// An element whose length has the long form, of one to four octets, ends
/// where the number that they are worth says.
pub proof fn a_long_length_is_what_its_octets_are_worth(octets: Seq<u8>, width: int)
    requires
        1 <= width <= 4,
        octets.len() >= 2 + width,
        octets[0] % 32 != 31,
        octets[1] == 0x80 + width,
    ensures
        ({
            let length = octets::unsigned_value(octets.subrange(2, 2 + width)) as int;
            first_element(octets) == (if octets.len() < 2 + width + length {
                Err(ProtocolError::PastTheEnd)
            } else {
                Ok(
                    (
                        octets[0],
                        octets.subrange(2 + width, 2 + width + length),
                        octets.skip(2 + width + length),
                    ),
                )
            })
        }),
{
    assert(octets.skip(1)[0] == octets[1]);
    assert(octets.skip(1).subrange(1, 1 + width) =~= octets.subrange(2, 2 + width));
}

/// What has no header of one to four length octets is no element, and the
/// error says why.
pub proof fn a_header_that_is_none_is_refused(octets: Seq<u8>)
    ensures
        octets.len() == 0 ==> first_element(octets) == Err::<
            (u8, Seq<u8>, Seq<u8>),
            ProtocolError,
        >(ProtocolError::CutAtTag),
        octets.len() > 0 && octets[0] % 32 == 31 ==> first_element(octets) == Err::<
            (u8, Seq<u8>, Seq<u8>),
            ProtocolError,
        >(ProtocolError::MultiByteTag),
        octets.len() == 1 && octets[0] % 32 != 31 ==> first_element(octets) == Err::<
            (u8, Seq<u8>, Seq<u8>),
            ProtocolError,
        >(ProtocolError::CutAtLength),
        octets.len() >= 2 && octets[0] % 32 != 31 && (octets[1] == 0x80 || octets[1] > 0x84)
            ==> first_element(octets) == Err::<(u8, Seq<u8>, Seq<u8>), ProtocolError>(
            ProtocolError::IndefiniteOrTooWide,
        ),
        octets.len() >= 2 && octets[0] % 32 != 31 && 0x80 < octets[1] <= 0x84 && octets.len() < 2
            + (octets[1] - 0x80) ==> first_element(octets) == Err::<
            (u8, Seq<u8>, Seq<u8>),
            ProtocolError,
        >(ProtocolError::CutInLength),
{
    if octets.len() >= 2 {
        assert(octets.skip(1)[0] == octets[1]);
    }
}

/// What follows an element does not change how it is read.
pub proof fn what_follows_an_element_is_left(octets: Seq<u8>, after: Seq<u8>)
    requires
        first_element(octets) is Ok,
    ensures
        ({
            let (tag, contents, rest) = first_element(octets)->Ok_0;
            first_element(octets + after) == Ok::<(u8, Seq<u8>, Seq<u8>), ProtocolError>(
                (tag, contents, rest + after),
            )
        }),
{
    let (tag, contents, rest) = first_element(octets)->Ok_0;
    let all = octets + after;
    let (width, length) = length_at(octets.skip(1))->Ok_0;
    let start = 1 + width as int;
    assert(all.skip(1)[0] == octets.skip(1)[0]);
    if octets[1] >= 0x80 {
        assert(all.skip(1).subrange(1, width as int) =~= octets.skip(1).subrange(1, width as int));
    }
    assert(all.subrange(start, start + length) =~= contents);
    assert(all.skip(start + length) =~= rest + after);
}

/// Elements that stand one after another are read one after another: first
/// those of the front, then those of the back.
pub proof fn elements_are_read_in_the_order_they_stand(front: Seq<u8>, back: Seq<u8>)
    requires
        all_elements(front) is Ok,
    ensures
        all_elements(front + back) == (match all_elements(back) {
            Ok(others) => Ok::<Seq<(u8, Seq<u8>)>, ProtocolError>(
                all_elements(front)->Ok_0 + others,
            ),
            Err(error) => Err(error),
        }),
    decreases front.len(),
{
    if front.len() == 0 {
        assert(front + back =~= back);
        if let Ok(others) = all_elements(back) {
            assert(all_elements(front)->Ok_0 + others =~= others);
        }
    } else {
        let (tag, contents, rest) = first_element(front)->Ok_0;
        what_follows_an_element_is_left(front, back);
        elements_are_read_in_the_order_they_stand(rest, back);
        if let Ok(others) = all_elements(back) {
            let one = seq![(tag, contents)];
            assert(one + (all_elements(rest)->Ok_0 + others) =~= one + all_elements(rest)->Ok_0
                + others);
        }
    }
}

/// No octets hold no element, one element is read as one, and what is no
/// element is refused for the reason that it is none.
pub proof fn elements_are_read_one_by_one(octets: Seq<u8>)
    ensures
        all_elements(Seq::empty()) == Ok::<Seq<(u8, Seq<u8>)>, ProtocolError>(Seq::empty()),
        octets.len() > 0 ==> match first_element(octets) {
            Ok((tag, contents, rest)) => rest.len() == 0 ==> all_elements(octets) == Ok::<
                Seq<(u8, Seq<u8>)>,
                ProtocolError,
            >(seq![(tag, contents)]),
            Err(error) => all_elements(octets) == Err::<Seq<(u8, Seq<u8>)>, ProtocolError>(error),
        },
{
    if let Ok((tag, contents, rest)) = first_element(octets) {
        if rest.len() == 0 {
            assert(all_elements(rest) == Ok::<Seq<(u8, Seq<u8>)>, ProtocolError>(Seq::empty()));
            assert(seq![(tag, contents)] + Seq::empty() =~= seq![(tag, contents)]);
        }
    }
}

/// Elements are written one after another: those of the front, then those of
/// the back, each as an element alone.
pub proof fn elements_are_written_in_their_order(
    front: Seq<(u8, Seq<u8>)>,
    back: Seq<(u8, Seq<u8>)>,
)
    ensures
        elements_octets(front + back) == elements_octets(front) + elements_octets(back),
        elements_octets(Seq::empty()) == Seq::<u8>::empty(),
        front.len() == 1 ==> elements_octets(front) == element_octets(front[0].0, front[0].1),
    decreases front.len(),
{
    if front.len() == 0 {
        assert(front + back =~= back);
        assert(elements_octets(front) + elements_octets(back) =~= elements_octets(back));
    } else {
        elements_are_written_in_their_order(front.skip(1), back);
        assert((front + back).skip(1) =~= front.skip(1) + back);
        assert(elements_octets(front + back) =~= elements_octets(front) + elements_octets(back));
        if front.len() == 1 {
            assert(elements_octets(front) =~= element_octets(front[0].0, front[0].1));
        }
    }
}

/// An INTEGER has one to eight octets, and is what they are worth in two's
/// complement.
pub proof fn an_integer_is_what_its_octets_are_worth(contents: Seq<u8>)
    ensures
        1 <= contents.len() <= 8 ==> integer_value(contents) == Ok::<int, ProtocolError>(
            octets::signed_value(contents),
        ),
        contents.len() == 0 || contents.len() > 8 ==> integer_value(contents) == Err::<
            int,
            ProtocolError,
        >(ProtocolError::IntegerWidth),
{
}

/// What a read returned says the tag and the octets that it returned.
pub proof fn what_was_read_says_its_octets(
    tag: u8,
    contents: &[u8],
    rest: &[u8],
    error: ProtocolError,
    elements: Seq<(u8, &[u8])>,
    i: int,
)
    ensures
        element_view(Ok((tag, contents, rest))) == Ok::<(u8, Seq<u8>, Seq<u8>), ProtocolError>(
            (tag, contents@, rest@),
        ),
        element_view(Err(error)) == Err::<(u8, Seq<u8>, Seq<u8>), ProtocolError>(error),
        elements_view(elements).len() == elements.len(),
        0 <= i < elements.len() ==> elements_view(elements)[i] == (elements[i].0, elements[i].1@),
{
}

} // verus!
