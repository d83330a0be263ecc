use vstd::prelude::*;
use vstd::utf8::{decode_utf8, encode_utf8, valid_utf8};

verus! {

/// The character sequences a list of strings holds.
pub open spec fn string_views(ss: Seq<String>) -> Seq<Seq<char>> {
    ss.map_values(|s: String| s@)
}

/// A character with the Unicode `White_Space` property; exactly the set that
/// `str::trim` strips from the ends of a string.
pub open spec fn is_blank(c: char) -> bool {
    c == ' ' || c == '\t' || c == '\n' || c == '\r' || c == '\u{b}' || c == '\u{c}'
        || c == '\u{85}' || c == '\u{a0}' || c == '\u{1680}'
        || (0x2000 <= c as int && c as int <= 0x200a)
        || c == '\u{2028}' || c == '\u{2029}' || c == '\u{202f}' || c == '\u{205f}'
        || c == '\u{3000}'
}

pub open spec fn trim_front(s: Seq<char>) -> Seq<char>
    decreases s.len(),
{
    if s.len() > 0 && is_blank(s.first()) {
        trim_front(s.drop_first())
    } else {
        s
    }
}

pub open spec fn trim_back(s: Seq<char>) -> Seq<char>
    decreases s.len(),
{
    if s.len() > 0 && is_blank(s.last()) {
        trim_back(s.drop_last())
    } else {
        s
    }
}

/// `s` without its leading and trailing blank characters.
pub open spec fn trim_spec(s: Seq<char>) -> Seq<char> {
    trim_back(trim_front(s))
}

proof fn lemma_scalar_no_lf(c: char)
    requires
        c != '\n',
    ensures
        forall|j: int|
            0 <= j < vstd::utf8::encode_scalar(c as u32).len()
                ==> #[trigger] vstd::utf8::encode_scalar(c as u32)[j] != 10,
{
    broadcast use vstd::utf8::char_is_scalar;

    let v = c as u32;
    let e = vstd::utf8::encode_scalar(v);
    if vstd::utf8::has_width_1_encoding(v) {
        assert((v & 0x7F) == v) by (bit_vector)
            requires v <= 0x7F
        ;
        assert(e[0] == v as u8);
        assert(v != 10);
    } else {
        assert forall|j: int| 0 <= j < e.len() implies #[trigger] e[j] != 10 by {
            assert(forall|w: u32| (0xC0u8 | ((w >> 6) & 0x1F) as u8) != 10) by (bit_vector);
            assert(forall|w: u32| (0xE0u8 | ((w >> 12) & 0x0F) as u8) != 10) by (bit_vector);
            assert(forall|w: u32| (0xF0u8 | ((w >> 18) & 0x7) as u8) != 10) by (bit_vector);
            assert(forall|w: u32| (0x80u8 | (w & 0x3F) as u8) != 10) by (bit_vector);
            assert(forall|w: u32| (0x80u8 | ((w >> 6) & 0x3F) as u8) != 10) by (bit_vector);
            assert(forall|w: u32| (0x80u8 | ((w >> 12) & 0x3F) as u8) != 10) by (bit_vector);
        }
    }
}

/// Text without a line break encodes to bytes without a line feed.
pub proof fn lemma_encode_no_lf(s: Seq<char>)
    requires
        forall|i: int| 0 <= i < s.len() ==> s[i] != '\n',
    ensures
        forall|j: int| 0 <= j < encode_utf8(s).len() ==> #[trigger] encode_utf8(s)[j] != 10,
    decreases s.len(),
{
    if s.len() > 0 {
        lemma_scalar_no_lf(s[0]);
        assert(forall|i: int| 0 <= i < s.drop_first().len() ==> s.drop_first()[i] == s[i + 1]);
        lemma_encode_no_lf(s.drop_first());
        let head = vstd::utf8::encode_scalar(s[0] as u32);
        let tail = encode_utf8(s.drop_first());
        assert forall|j: int| 0 <= j < encode_utf8(s).len() implies #[trigger] encode_utf8(s)[j]
            != 10 by {
            if j < head.len() {
                assert(encode_utf8(s)[j] == head[j]);
            } else {
                assert(encode_utf8(s)[j] == tail[j - head.len()]);
            }
        }
    }
}

/// Relies on str::trim: it removes exactly the leading and trailing
/// characters with the Unicode `White_Space` property.
#[verifier::external_body]
pub fn trim(s: &str) -> (r: String)
    ensures
        r@ == trim_spec(s@),
{
    s.trim().to_string()
}

/// Relies on String::from_utf8: it succeeds exactly on valid UTF-8 input,
/// and the returned string holds the characters that input encodes.
#[verifier::external_body]
pub fn bytes_to_string(v: Vec<u8>) -> (r: Option<String>)
    ensures
        match r {
            Some(s) => valid_utf8(v@) && s@ == decode_utf8(v@),
            None => !valid_utf8(v@),
        },
{
    match String::from_utf8(v) {
        Ok(s) => Some(s),
        Err(_) => None,
    }
}

} // verus!
