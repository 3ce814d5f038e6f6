//! NUL-terminated UTF-16 strings, as the Windows API takes them.

use vstd::prelude::*;
use crate::text::chars_of;

verus! {

/// `std::path::Path`, carried through opaque.
#[verifier::external_type_specification]
#[verifier::external_body]
pub struct ExPath(std::path::Path);

/// The UTF-16 code units of one character: one unit inside the Basic
/// Multilingual Plane, a surrogate pair outside it.
pub open spec fn utf16_of(c: char) -> Seq<u16> {
    let v = c as u32;
    if v < 0x10000 {
        seq![v as u16]
    } else {
        let w = (v - 0x10000) as u32;
        seq![(0xD800 + w / 1024) as u16, (0xDC00 + w % 1024) as u16]
    }
}

/// The UTF-16 encoding of `s`, as `str::encode_utf16` gives it.
pub open spec fn utf16(s: Seq<char>) -> Seq<u16>
    decreases s.len(),
{
    if s.len() == 0 {
        Seq::empty()
    } else {
        utf16(s.drop_last()) + utf16_of(s.last())
    }
}

/// `value` as UTF-16 followed by a terminating 0.
pub fn to_wide_str(value: &str) -> (r: Vec<u16>)
    ensures
        r@ == utf16(value@).push(0),
{
    let v = chars_of(value);
    let mut out: Vec<u16> = Vec::new();
    let mut i: usize = 0;
    while i < v.len()
        invariant
            i <= v.len(),
            out@ == utf16(v@.take(i as int)),
        decreases v.len() - i,
    {
        let c = v[i];
        let u: u32 = #[verifier::truncate] (c as u32);
        proof {
            assert(v@.take(i + 1).drop_last() =~= v@.take(i as int));
            assert(v@.take(i + 1).last() == c);
        }
        if u < 0x10000 {
            out.push(u as u16);
            assert(out@ =~= utf16(v@.take(i as int)) + utf16_of(c));
        } else {
            let w: u32 = u - 0x10000;
            let hi: u32 = 0xD800 + w / 1024;
            let lo: u32 = 0xDC00 + w % 1024;
            out.push(#[verifier::truncate] (hi as u16));
            out.push(#[verifier::truncate] (lo as u16));
            assert(out@ =~= utf16(v@.take(i as int)) + utf16_of(c));
        }
        i += 1;
    }
    assert(v@.take(i as int) =~= v@);
    out.push(0);
    out
}

/// The text of a path as `Path::to_string_lossy` gives it: its characters,
/// with each ill-formed part replaced by U+FFFD. It depends on the path alone.
pub uninterp spec fn path_chars(p: &std::path::Path) -> Seq<char>;

/// `Path::to_string_lossy`, made owned: the result is the path's text,
/// `path_chars(path)`.
#[verifier::external_body]
fn path_text(path: &std::path::Path) -> (s: String)
    ensures
        s@ == path_chars(path),
{
    path.to_string_lossy().into_owned()
}

/// A path as UTF-16 followed by a terminating 0.
pub fn to_wide(path: &std::path::Path) -> (r: Vec<u16>)
    ensures
        r@ == utf16(path_chars(path)).push(0),
{
    let s = path_text(path);
    to_wide_str(s.as_str())
}

/// The wide string of `value` ends in its terminating zero, and has no zero
/// before it unless `value` holds a NUL character.
pub proof fn wide_str_terminated(value: Seq<char>)
    ensures
        utf16(value).push(0).last() == 0,
        forall|i: int| 0 <= i < utf16(value).len() && utf16(value)[i] == 0 ==> value.contains('\0'),
    decreases value.len(),
{
    if value.len() > 0 {
        let p = value.drop_last();
        wide_str_terminated(p);
        let c = value.last();
        assert forall|i: int| 0 <= i < utf16(value).len() && utf16(value)[i] == 0 implies value.contains('\0') by {
            let a = utf16(p);
            let b = utf16_of(c);
            if i < a.len() {
                assert(utf16(value)[i] == a[i]);
                let j = choose|j: int| 0 <= j < p.len() && p[j] == '\0';
                assert(value[j] == p[j]);
            } else {
                assert(utf16(value)[i] == b[i - a.len()]);
                let v = c as u32;
                vstd::utf8::char_is_scalar(c);
                vstd::utf8::char_u32_cast(c, v);
                if v < 0x10000 {
                    assert(b[0] == v as u16);
                    assert((v as u16) as int == v as int) by (bit_vector)
                        requires
                            v < 0x10000u32,
                    ;
                    assert(v == 0);
                    assert(c == (0u32 as char));
                } else {
                    let w = (v - 0x10000) as u32;
                    assert(b[0] == (0xD800 + w / 1024) as u16);
                    assert(b[1] == (0xDC00 + w % 1024) as u16);
                    assert((0xD800 + w / 1024) as u16 != 0 && (0xDC00 + w % 1024) as u16 != 0) by (bit_vector)
                        requires
                            w <= 0xFFFFFu32,
                    ;
                }
                assert(value[value.len() - 1] == c);
            }
        }
    }
}

} // verus!
