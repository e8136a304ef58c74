//! Base64 text, as literals are carried in a delta plan.
use base64::engine::general_purpose::STANDARD;
use base64::{DecodeError, Engine};
use vstd::prelude::*;

verus! {

/// Why a text is not base64, as the `base64` crate tells it.
#[verifier::external_type_specification]
#[verifier::external_body]
pub struct ExDecodeError(DecodeError);

/// The character for six bits of value `v` in the alphabet of RFC 4648.
pub open spec fn base64_char(v: int) -> char {
    if v < 26 {
        ('A' as int + v) as char
    } else if v < 52 {
        ('a' as int + (v - 26)) as char
    } else if v < 62 {
        ('0' as int + (v - 52)) as char
    } else if v == 62 {
        '+'
    } else {
        '/'
    }
}

/// The base64 text of `data`, as RFC 4648 has it: four characters for every
/// three bytes, the unused bits of the last group zero, and `=` in place of the
/// characters that the last group does not need.
pub open spec fn base64_text(data: Seq<u8>) -> Seq<char>
    decreases data.len(),
{
    let a = data[0] as int;
    let b = data[1] as int;
    let c = data[2] as int;
    if data.len() == 0 {
        Seq::empty()
    } else if data.len() == 1 {
        seq![base64_char(a / 4), base64_char(a % 4 * 16), '=', '=']
    } else if data.len() == 2 {
        seq![
            base64_char(a / 4),
            base64_char(a % 4 * 16 + b / 16),
            base64_char(b % 16 * 4),
            '=',
        ]
    } else {
        seq![
            base64_char(a / 4),
            base64_char(a % 4 * 16 + b / 16),
            base64_char(b % 16 * 4 + c / 64),
            base64_char(c % 64),
        ] + base64_text(data.skip(3))
    }
}

/// The data that `text` is the base64 text of, if it is one.
pub open spec fn base64_data(text: Seq<char>) -> Option<Seq<u8>> {
    if exists|data: Seq<u8>| #[trigger] base64_text(data) == text {
        Some(choose|data: Seq<u8>| #[trigger] base64_text(data) == text)
    } else {
        None
    }
}

/// What `Engine::decode` of the `STANDARD` engine finds wrong with `text`.
pub uninterp spec fn base64_error(text: Seq<char>) -> DecodeError;

/// `Engine::decode` of the `STANDARD` engine: it takes the standard alphabet
/// with canonical padding and no stray bits only, so it yields the data whose
/// base64 text was given, and fails on a text that is that of no data. What it
/// finds wrong depends on the text alone.
#[verifier::external_body]
fn standard_decode(text: &str) -> (decoded: Result<Vec<u8>, DecodeError>)
    ensures
        decoded matches Ok(data) ==> base64_text(data@) == text@,
        decoded is Err ==> forall|data: Seq<u8>| #[trigger] base64_text(data) != text@,
        decoded matches Err(error) ==> error == base64_error(text@),
{
    STANDARD.decode(text)
}

/// Decodes base64 text.
pub fn decode_base64(text: &str) -> (decoded: Result<Vec<u8>, DecodeError>)
    ensures
        match decoded {
            Ok(data) => base64_data(text@) == Some(data@),
            Err(error) => base64_data(text@) is None && error == base64_error(text@),
        },
        decoded matches Ok(data) ==> base64_text(data@) == text@,
        decoded is Err ==> forall|data: Seq<u8>| #[trigger] base64_text(data) != text@,
{
    let decoded = standard_decode(text);
    proof {
        if decoded is Ok {
            law_base64_decodes_what_was_encoded(decoded->Ok_0@);
        }
    }
    decoded
}

/// Different six-bit values have different characters, and none is the padding.
proof fn lemma_base64_char(v: int, w: int)
    requires
        0 <= v < 64,
        0 <= w < 64,
    ensures
        base64_char(v) == base64_char(w) ==> v == w,
        base64_char(v) != '=',
{
}

/// Different data have different base64 texts.
proof fn lemma_base64_is_injective(left: Seq<u8>, right: Seq<u8>)
    requires
        base64_text(left) == base64_text(right),
    ensures
        left == right,
    decreases left.len(),
{
    let text = base64_text(left);
    let (a, b, c) = (left[0] as int, left[1] as int, left[2] as int);
    let (x, y, z) = (right[0] as int, right[1] as int, right[2] as int);
    assert(left.len() > 0 <==> text.len() > 0);
    assert(right.len() > 0 <==> base64_text(right).len() > 0);
    if left.len() == 0 {
        assert(right =~= left);
    } else {
        lemma_base64_char(a / 4, x / 4);
        assert(base64_char(a / 4) == base64_char(x / 4)) by {
            assert(text[0] == base64_char(a / 4));
            assert(base64_text(right)[0] == base64_char(x / 4));
        }
        let second = a % 4 * 16 + (if left.len() == 1 { 0 } else { b / 16 });
        let other_second = x % 4 * 16 + (if right.len() == 1 { 0 } else { y / 16 });
        assert(text[1] == base64_char(second));
        assert(base64_text(right)[1] == base64_char(other_second));
        lemma_base64_char(second, other_second);
        assert(a == x);
        let third = b % 16 * 4 + (if left.len() == 2 { 0 } else { c / 64 });
        let other_third = y % 16 * 4 + (if right.len() == 2 { 0 } else { z / 64 });
        lemma_base64_char(third, other_third);
        lemma_base64_char(c % 64, z % 64);
        assert(left.len() >= 2 ==> text[2] == base64_char(third));
        assert(left.len() == 1 ==> text[2] == '=');
        assert(left.len() < 3 ==> text[3] == '=');
        assert(left.len() >= 3 ==> text[3] == base64_char(c % 64));
        assert(right.len() >= 2 ==> base64_text(right)[2] == base64_char(other_third));
        assert(right.len() == 1 ==> base64_text(right)[2] == '=');
        assert(right.len() < 3 ==> base64_text(right)[3] == '=');
        assert(right.len() >= 3 ==> base64_text(right)[3] == base64_char(z % 64));
        lemma_base64_char(other_third, third);
        lemma_base64_char(z % 64, c % 64);
        if left.len() >= 3 {
            assert(right.len() >= 3);
            assert(text.skip(4) =~= base64_text(left.skip(3)));
            assert(base64_text(right).skip(4) =~= base64_text(right.skip(3)));
            lemma_base64_is_injective(left.skip(3), right.skip(3));
            assert(left =~= seq![left[0], left[1], left[2]] + left.skip(3));
            assert(right =~= seq![right[0], right[1], right[2]] + right.skip(3));
        } else {
            assert(left =~= right);
        }
    }
}

/// Decoding gives back what was encoded.
pub proof fn law_base64_decodes_what_was_encoded(data: Seq<u8>)
    ensures
        base64_data(base64_text(data)) == Some(data),
{
    let found = choose|found: Seq<u8>| #[trigger] base64_text(found) == base64_text(data);
    lemma_base64_is_injective(found, data);
}

} // verus!
