use vstd::prelude::*;

verus! {

/// The value of one hexadecimal digit character (`0-9`, `a-f`, `A-F`).
pub open spec fn hex_digit(c: u8) -> Option<u8> {
    if 0x30 <= c <= 0x39 {
        Some((c - 0x30) as u8)
    } else if 0x61 <= c <= 0x66 {
        Some((c - 0x61 + 10) as u8)
    } else if 0x41 <= c <= 0x46 {
        Some((c - 0x41 + 10) as u8)
    } else {
        None
    }
}

/// The bytes that a hexadecimal text stands for, two digits per byte, high
/// digit first; `None` for an odd length or a character that is no digit.
pub open spec fn hex_decoded(text: Seq<u8>) -> Option<Seq<u8>>
    decreases text.len(),
{
    if text.len() % 2 != 0 {
        None
    } else if text.len() == 0 {
        Some(Seq::empty())
    } else {
        let n = text.len() as int;
        match (hex_decoded(text.subrange(0, n - 2)), hex_digit(text[n - 2]), hex_digit(text[n - 1])) {
            (Some(prefix), Some(high), Some(low)) => Some(prefix.push((high * 16 + low) as u8)),
            _ => None,
        }
    }
}

/// A text stands for bytes exactly when its length is even and every
/// character is a hexadecimal digit; byte `k` is then sixteen times the
/// digit at `2 * k` plus the digit at `2 * k + 1`.
pub proof fn law_hex_digit_pairs(text: Seq<u8>)
    ensures
        hex_decoded(text) is Some <==> text.len() % 2 == 0 && forall|i: int|
            0 <= i < text.len() ==> #[trigger] hex_digit(text[i]) is Some,
        hex_decoded(text) is Some ==> hex_decoded(text).unwrap().len() == text.len() / 2 && forall|
            k: int,
        |
            0 <= k < text.len() / 2 ==> #[trigger] hex_decoded(text).unwrap()[k] == hex_digit(
                text[2 * k],
            ).unwrap() * 16 + hex_digit(text[2 * k + 1]).unwrap(),
    decreases text.len(),
{
    if text.len() % 2 == 0 && text.len() > 0 {
        let n = text.len() as int;
        let init = text.subrange(0, n - 2);
        law_hex_digit_pairs(init);
        assert forall|i: int| 0 <= i < n - 2 implies init[i] == text[i] by {}
        if hex_decoded(text) is Some {
            let out = hex_decoded(text).unwrap();
            let prefix = hex_decoded(init).unwrap();
            let high = hex_digit(text[n - 2]).unwrap();
            let low = hex_digit(text[n - 1]).unwrap();
            assert(out == prefix.push((high * 16 + low) as u8));
            assert(high < 16 && low < 16);
            assert forall|i: int| 0 <= i < text.len() implies #[trigger] hex_digit(text[i]) is Some by {
                if i < n - 2 {
                    assert(hex_digit(init[i]) is Some);
                }
            }
            assert forall|k: int| 0 <= k < text.len() / 2 implies #[trigger] out[k] == hex_digit(
                text[2 * k],
            ).unwrap() * 16 + hex_digit(text[2 * k + 1]).unwrap() by {
                if k < n / 2 - 1 {
                    assert(prefix[k] == hex_digit(init[2 * k]).unwrap() * 16 + hex_digit(
                        init[2 * k + 1],
                    ).unwrap());
                }
            }
        } else {
            if forall|i: int| 0 <= i < text.len() ==> #[trigger] hex_digit(text[i]) is Some {
                assert forall|i: int| 0 <= i < init.len() implies #[trigger] hex_digit(init[i]) is Some by {
                    assert(hex_digit(text[i]) is Some);
                }
                assert(hex_digit(text[n - 2]) is Some);
                assert(hex_digit(text[n - 1]) is Some);
            }
        }
    }
}

/// Calls `hex::decode` on the text's bytes and turns its error into `None`.
/// The contract claims what the crate's source does: each pair of digits
/// (either case) becomes the byte `high * 16 + low`, and an odd length or a
/// non-digit character is an error.
#[verifier::external_body]
pub(crate) fn decode_hex(text: &[u8]) -> (res: Option<Vec<u8>>)
    ensures
        res is Some <==> hex_decoded(text@) is Some,
        res matches Some(bytes) ==> hex_decoded(text@) == Some(bytes@),
{
    hex::decode(text).ok()
}

} // verus!
