//! Display helpers of pack building: long fingerprints are shown by their
//! two ends.

use vstd::prelude::*;
use vstd::string::*;
use vstd::utf8::*;
use crate::text::push_str;

verus! {

/// The text that `short` shows for the UTF-8 bytes `b`: all of it when it
/// is at most 16 bytes long, else its first 8 bytes, an ellipsis and its
/// last 8 bytes.
pub open spec fn shortened(b: Seq<u8>) -> Seq<char> {
    if b.len() <= 16 {
        decode_utf8(b)
    } else {
        decode_utf8(b.subrange(0, 8)) + seq!['…'] + decode_utf8(b.subrange(b.len() - 8, b.len() as int))
    }
}

/// A fingerprint shortened for messages (see `shortened`). Cutting a
/// string longer than 16 bytes needs its 8th byte and its 8th byte from
/// the end to start characters.
pub fn short(s: &str) -> (r: String)
    requires
        s.spec_bytes().len() <= usize::MAX,
        s.spec_bytes().len() > 16 ==> is_char_boundary(s.spec_bytes(), 8) && is_char_boundary(
            s.spec_bytes(),
            s.spec_bytes().len() - 8,
        ),
    ensures
        r@ == shortened(s.spec_bytes()),
{
    proof {
        encode_utf8_decode_utf8(s@);
        encode_utf8_valid_utf8(s@);
    }
    let n = s.len();
    if n <= 16 {
        return s.to_owned();
    }
    let (head, _) = s.split_at(8);
    let (_, tail) = s.split_at(n - 8);
    proof {
        encode_utf8_decode_utf8(head@);
        encode_utf8_decode_utf8(tail@);
    }
    let mut out = head.to_owned();
    push_str(&mut out, "…");
    push_str(&mut out, tail);
    proof {
        reveal_strlit("…");
    }
    out
}

} // verus!
