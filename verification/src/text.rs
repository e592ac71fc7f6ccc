//! Text on the wire.

use vstd::prelude::*;
use vstd::utf8;

verus! {

/// What `String::from_utf8_lossy` makes of octets that are not UTF-8.
pub uninterp spec fn replaced_text(octets: Seq<u8>) -> Seq<char>;

/// The text that `octets` carry: what they encode where they are UTF-8, and
/// else what is left of it once the invalid sequences are replaced.
pub open spec fn text_of(octets: Seq<u8>) -> Seq<char> {
    if utf8::valid_utf8(octets) {
        utf8::decode_utf8(octets)
    } else {
        replaced_text(octets)
    }
}

/// `String::from_utf8_lossy`: UTF-8 is decoded. Of other octets, whose invalid
/// sequences are replaced, no more is said than the name that the result has.
#[verifier::external_body]
pub(crate) fn lossy_text(octets: &[u8]) -> (text: String)
    ensures
        utf8::valid_utf8(octets@) ==> text@ == utf8::decode_utf8(octets@),
        !utf8::valid_utf8(octets@) ==> text@ == replaced_text(octets@),
{
    String::from_utf8_lossy(octets).into_owned()
}

/// Text reads back as it was written.
pub proof fn text_reads_back(text: Seq<char>)
    ensures
        text_of(utf8::encode_utf8(text)) == text,
{
    utf8::encode_utf8_valid_utf8(text);
    utf8::encode_utf8_decode_utf8(text);
}

/// The text of octets that are UTF-8 is the text that they encode. Of other
/// octets it is what is left once the invalid sequences are replaced.
pub proof fn text_is_what_its_octets_encode(octets: Seq<u8>)
    ensures
        utf8::valid_utf8(octets) ==> utf8::encode_utf8(text_of(octets)) == octets,
        !utf8::valid_utf8(octets) ==> text_of(octets) == replaced_text(octets),
{
    if utf8::valid_utf8(octets) {
        utf8::decode_utf8_encode_utf8(octets);
    }
}

} // verus!
