//! Text decoding for wire fields.
//!
//! Every text field on the wire is a raw byte run that should be shown to a
//! human.  Valid UTF-8 is decoded exactly; anything else falls back to a
//! best-effort lossy decoding that never fails, so a malformed name can never
//! abort a decode.

use vstd::prelude::*;
use vstd::utf8::*;

verus! {

/// The characters that the lossy fallback produces for a byte run.
///
/// The exact replacement scheme is std's; nothing here depends on it beyond
/// its being a fixed function of the bytes.
pub uninterp spec fn lossy_of(b: Seq<u8>) -> Seq<char>;

/// What a wire byte run reads as: exact UTF-8 where the bytes are valid,
/// the lossy fallback otherwise.
pub open spec fn text_of(b: Seq<u8>) -> Seq<char> {
    if valid_utf8(b) {
        decode_utf8(b)
    } else {
        lossy_of(b)
    }
}

/// Relies on `String::from_utf8_lossy`: the result is a fixed function of
/// the bytes, and a valid UTF-8 byte run decodes to exactly the characters
/// it encodes.
#[verifier::external_body]
pub(crate) fn lossy_string(b: &[u8]) -> (r: String)
    ensures
        r@ == lossy_of(b@),
        r@ == text_of(b@),
{
    String::from_utf8_lossy(b).into_owned()
}

/// The ASCII bytes of a byte run, in order, everything else dropped.
pub open spec fn ascii_of(b: Seq<u8>) -> Seq<u8> {
    b.filter(|x: u8| x < 0x80)
}

/// An all-ASCII byte run is valid UTF-8 and decodes byte for byte.
proof fn lemma_ascii_decode(k: Seq<u8>)
    requires
        forall|i: int| 0 <= i < k.len() ==> k[i] < 0x80,
    ensures
        valid_utf8(k),
        decode_utf8(k).len() == k.len(),
        forall|i: int| 0 <= i < k.len() ==> #[trigger] (decode_utf8(k)[i] as u32) == k[i] as u32,
    decreases k.len(),
{
    if k.len() > 0 {
        let b0 = k[0];
        assert(is_leading_byte_width_1(b0));
        assert(length_of_first_scalar(k) == 1);
        assert(decode_first_scalar(k) == codepoint_width_1(b0));
        assert(codepoint_width_1(b0) == b0 as u32) by (bit_vector)
            requires
                is_leading_byte_width_1(b0),
        ;
        let rest = pop_first_scalar(k);
        assert(rest =~= k.subrange(1, k.len() as int));
        lemma_ascii_decode(rest);
        assert(decode_utf8(k) == seq![decode_first_scalar(k) as char] + decode_utf8(rest));
    }
}

/// Keeps the bytes of `source` that alone form valid UTF-8 — exactly the
/// ASCII bytes — in the order they appear, as a string.
pub fn get_safe_string(source: Vec<u8>) -> (r: String)
    ensures
        r@ == decode_utf8(ascii_of(source@)),
        r@.len() == ascii_of(source@).len(),
        forall|i: int|
            0 <= i < r@.len() ==> #[trigger] (r@[i] as u32) == ascii_of(source@)[i] as u32,
{
    let mut kept: Vec<u8> = Vec::new();
    let mut i: usize = 0;
    while i < source.len()
        invariant
            i <= source.len(),
            kept@ =~= ascii_of(source@.take(i as int)),
            forall|j: int| 0 <= j < kept@.len() ==> #[trigger] kept@[j] < 0x80,
        decreases source.len() - i,
    {
        let b = source[i];
        if b < 0x80 {
            kept.push(b);
        }
        proof {
            reveal_with_fuel(Seq::<_>::filter, 2);
            assert(source@.take(i + 1).drop_last() =~= source@.take(i as int));
            assert(source@.take(i + 1).last() == source@[i as int]);
            assert(kept@ =~= ascii_of(source@.take(i + 1)));
        }
        i += 1;
    }
    proof {
        assert(source@.take(source@.len() as int) =~= source@);
        lemma_ascii_decode(kept@);
    }
    lossy_string(kept.as_slice())
}

} // verus!
