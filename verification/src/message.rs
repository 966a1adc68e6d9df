//! The byte layout of a position packet: a packed record of a version
//! (`u32`), a topic (40 bytes), a product (8 bytes), an account (95 bytes) and
//! a position (`f64`), in that order.

use vstd::prelude::*;
use vstd::slice::slice_subrange;
use vstd::utf8::{decode_utf8, encode_utf8, valid_utf8};
use crate::text::{
    lemma_trim_end_char_padded, lemma_trim_end_char_parts, trim_end_char, trim_end_matches_char,
};

verus! {

/// The size of a packet in bytes.
pub const PACKET_LEN: usize = 155;

/// Where the product field starts.
pub const PRODUCT_START: usize = 44;

/// Where the account field starts (and the product field ends).
pub const AC_START: usize = 52;

/// Where the position field starts (and the account field ends).
pub const POSITION_START: usize = 147;

/// What `String::from_utf8_lossy` makes of `bytes`.
pub uninterp spec fn utf8_lossy(bytes: Seq<u8>) -> Seq<char>;

/// `String::from_utf8_lossy(bytes)` as an owned string: the characters that
/// `bytes` encode, with each invalid UTF-8 sequence replaced by U+FFFD. Of
/// invalid input only the name `utf8_lossy` is stated; valid input decodes
/// to its characters.
#[verifier::external_body]
fn from_utf8_lossy(bytes: &[u8]) -> (s: String)
    ensures
        s@ == utf8_lossy(bytes@),
        valid_utf8(bytes@) ==> s@ == decode_utf8(bytes@),
{
    String::from_utf8_lossy(bytes).into_owned()
}

/// The fields of a packet: the account and product names without their
/// trailing NUL characters, and the eight raw bytes of the position.
#[derive(Debug, Clone)]
pub struct PacketFields {
    pub ac: String,
    pub symbol: String,
    pub position: [u8; 8],
}

/// The text of a name field: its bytes read as UTF-8 (lossily), without
/// trailing NUL characters.
pub open spec fn field_text(bytes: Seq<u8>) -> Seq<char> {
    trim_end_char(utf8_lossy(bytes), '\0')
}

/// Reads the account, product and position of a packet; `None` where fewer
/// bytes than a packet are given.
pub fn decode_packet(bytes: &[u8]) -> (r: Option<PacketFields>)
    ensures
        r is None <==> bytes@.len() < PACKET_LEN,
        r matches Some(f) ==> {
            &&& f.ac@ == field_text(bytes@.subrange(AC_START as int, POSITION_START as int))
            &&& f.symbol@ == field_text(bytes@.subrange(PRODUCT_START as int, AC_START as int))
            &&& f.position@ == bytes@.subrange(POSITION_START as int, PACKET_LEN as int)
            &&& valid_utf8(bytes@.subrange(AC_START as int, POSITION_START as int)) ==> f.ac@
                == trim_end_char(
                decode_utf8(bytes@.subrange(AC_START as int, POSITION_START as int)),
                '\0',
            )
            &&& valid_utf8(bytes@.subrange(PRODUCT_START as int, AC_START as int)) ==> f.symbol@
                == trim_end_char(
                decode_utf8(bytes@.subrange(PRODUCT_START as int, AC_START as int)),
                '\0',
            )
        },
{
    if bytes.len() < PACKET_LEN {
        return None;
    }
    let ac_raw = from_utf8_lossy(slice_subrange(bytes, AC_START, POSITION_START));
    let ac = String::from_str(trim_end_matches_char(ac_raw.as_str(), '\0'));
    let symbol_raw = from_utf8_lossy(slice_subrange(bytes, PRODUCT_START, AC_START));
    let symbol = String::from_str(trim_end_matches_char(symbol_raw.as_str(), '\0'));
    let mut position: [u8; 8] = [0u8; 8];
    let mut k: usize = 0;
    while k < 8
        invariant
            k <= 8,
            bytes@.len() >= PACKET_LEN,
            forall|j: int| 0 <= j < k ==> position@[j] == bytes@[POSITION_START + j],
        decreases 8 - k,
    {
        position.set(k, bytes[POSITION_START + k]);
        k = k + 1;
    }
    assert(position@ =~= bytes@.subrange(POSITION_START as int, PACKET_LEN as int));
    Some(PacketFields { ac, symbol, position })
}

/// A name field read from a packet is the field's text up to its trailing
/// NUL padding: the text continues with nothing but NUL characters after it,
/// and it does not itself end in NUL.
pub proof fn lemma_field_text_parts(bytes: Seq<u8>)
    ensures
        field_text(bytes).len() <= utf8_lossy(bytes).len(),
        utf8_lossy(bytes) == field_text(bytes) + Seq::new(
            (utf8_lossy(bytes).len() - field_text(bytes).len()) as nat,
            |i: int| '\0',
        ),
        field_text(bytes).len() == 0 || field_text(bytes).last() != '\0',
{
    lemma_trim_end_char_parts(utf8_lossy(bytes), '\0');
}

/// The UTF-8 encoding of a text followed by NUL bytes is valid UTF-8, and
/// reading it as a name field (decoding, then dropping the trailing NULs)
/// gives back the text, where the text does not end in NUL.
pub proof fn lemma_padded_name_field(cs: Seq<char>, k: nat)
    requires
        cs.len() == 0 || cs.last() != '\0',
    ensures
        valid_utf8(encode_utf8(cs) + Seq::new(k, |i: int| 0u8)),
        trim_end_char(decode_utf8(encode_utf8(cs) + Seq::new(k, |i: int| 0u8)), '\0') == cs,
{
    let nuls = Seq::new(k, |i: int| '\0');
    lemma_encode_concat(cs, nuls);
    lemma_encode_nuls(k);
    vstd::utf8::encode_utf8_valid_utf8(cs + nuls);
    vstd::utf8::encode_utf8_decode_utf8(cs + nuls);
    lemma_trim_end_char_padded(cs, '\0', k);
}

proof fn lemma_encode_concat(a: Seq<char>, b: Seq<char>)
    ensures
        encode_utf8(a + b) == encode_utf8(a) + encode_utf8(b),
    decreases a.len(),
{
    if a.len() > 0 {
        assert((a + b).drop_first() =~= a.drop_first() + b);
        assert((a + b)[0] == a[0]);
        lemma_encode_concat(a.drop_first(), b);
        assert(encode_utf8(a + b) =~= encode_utf8(a) + encode_utf8(b));
    } else {
        assert(a + b =~= b);
        assert(encode_utf8(a) + encode_utf8(b) =~= encode_utf8(b));
    }
}

proof fn lemma_encode_nuls(k: nat)
    ensures
        encode_utf8(Seq::new(k, |i: int| '\0')) == Seq::new(k, |i: int| 0u8),
    decreases k,
{
    let s = Seq::new(k, |i: int| '\0');
    if k > 0 {
        lemma_encode_nuls((k - 1) as nat);
        assert(s.drop_first() =~= Seq::new((k - 1) as nat, |i: int| '\0'));
        assert(('\0' as u32) == 0u32);
        assert((0u32 & 0x7Fu32) as u8 == 0u8) by (bit_vector);
        assert(vstd::utf8::encode_scalar(0u32) =~= seq![0u8]);
        assert(encode_utf8(s) =~= Seq::new(k, |i: int| 0u8));
    }
}

} // verus!
