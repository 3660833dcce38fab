//! Text as sequences of characters: decoding, prefixes, suffixes and digits.

use vstd::prelude::*;
use vstd::string::StrSliceExecFns;

verus! {

/// Makes `core::str::Utf8Error` a type that a signature can hold. Nothing is claimed of its
/// values.
#[verifier::external_type_specification]
#[verifier::external_body]
pub struct ExUtf8Error(core::str::Utf8Error);

/// `core::str::from_utf8` accepts exactly the valid UTF-8 encodings, and the text that it
/// gives is the one that the bytes encode.
pub assume_specification[ core::str::from_utf8 ](v: &[u8]) -> (decoded: Result<
    &str,
    core::str::Utf8Error,
>)
    ensures
        decoded is Ok <==> vstd::utf8::valid_utf8(v@),
        decoded matches Ok(s) ==> s@ == vstd::utf8::decode_utf8(v@),
;

/// `String::push` puts the character behind the text.
pub assume_specification[ String::push ](s: &mut String, c: char)
    ensures
        final(s)@ == old(s)@.push(c),
;

/// The text that `bytes` encode in UTF-8, if they do.
pub open spec fn utf8_text(bytes: Seq<u8>) -> Option<Seq<char>> {
    if vstd::utf8::valid_utf8(bytes) {
        Some(vstd::utf8::decode_utf8(bytes))
    } else {
        None
    }
}

/// Bytes are read as a text exactly if they are its encoding, character for character; bytes that
/// are the encoding of no text are not read at all.
pub proof fn encoded_text_is_read(bytes: Seq<u8>, text: Seq<char>)
    ensures
        utf8_text(bytes) == Some(text) <==> bytes == vstd::utf8::encode_utf8(text),
        utf8_text(bytes) is None <==> !vstd::utf8::valid_utf8(bytes),
{
    vstd::utf8::encode_utf8_valid_utf8(text);
    vstd::utf8::encode_utf8_decode_utf8(text);
    if vstd::utf8::valid_utf8(bytes) {
        vstd::utf8::decode_utf8_encode_utf8(bytes);
    }
}

/// What is left of `text` behind `prefix`, if it begins with it.
pub open spec fn without_prefix(text: Seq<char>, prefix: Seq<char>) -> Option<Seq<char>> {
    if prefix.is_prefix_of(text) {
        Some(text.skip(prefix.len() as int))
    } else {
        None
    }
}

/// The character that stands for one digit; letters are lower case.
pub open spec fn digit(value: int) -> char {
    if value < 10 {
        (48 + value) as char
    } else {
        (87 + value) as char
    }
}

/// `number` written in the given base, the most significant digit first.
pub open spec fn digits(number: nat, base: nat) -> Seq<char>
    decreases number,
{
    if base < 2 || number < base {
        seq![digit(number as int)]
    } else {
        proof {
            vstd::arithmetic::div_mod::lemma_div_decreases(number as int, base as int);
        }
        digits(number / base, base).push(digit((number % base) as int))
    }
}

/// The number that decimal digits spell.
pub open spec fn decimal_value(text: Seq<char>) -> int
    decreases text.len(),
{
    if text.len() == 0 {
        0
    } else {
        10 * decimal_value(text.drop_last()) + (text.last() as int - 48)
    }
}

/// The decimal digits of a number spell it, and are digits.
pub proof fn lemma_decimal_value(number: nat)
    ensures
        decimal_value(digits(number, 10)) == number,
        forall|i: int|
            0 <= i < digits(number, 10).len() ==> '0' <= #[trigger] digits(number, 10)[i] <= '9',
    decreases number,
{
    let own = digits(number, 10);
    if number < 10 {
        assert(own.drop_last() =~= Seq::empty());
        reveal_with_fuel(decimal_value, 2);
    } else {
        lemma_decimal_value(number / 10);
        assert(own.drop_last() =~= digits(number / 10, 10));
    }
}

/// What a digit counts; letters go on behind nine.
pub open spec fn digit_value(ch: char) -> int {
    if '0' <= ch <= '9' {
        ch as int - '0' as int
    } else if 'a' <= ch <= 'f' {
        ch as int - 'a' as int + 10
    } else {
        -1
    }
}

/// The number that digits in this base spell, the most significant first.
pub open spec fn value_in(text: Seq<char>, base: int) -> int
    decreases text.len(),
{
    if text.len() == 0 {
        0
    } else {
        base * value_in(text.drop_last(), base) + digit_value(text.last())
    }
}

/// Whether `text` spells `number` in this base, without zeros in front and with small letters.
pub open spec fn spells(text: Seq<char>, number: int, base: int) -> bool {
    &&& text.len() > 0
    &&& value_in(text, base) == number
    &&& text.len() > 1 ==> text[0] != '0'
    &&& forall|i: int| 0 <= i < text.len() ==> 0 <= #[trigger] digit_value(text[i]) < base
}

/// A number is written so that it is read back.
pub proof fn digits_spell(number: nat, base: nat)
    requires
        2 <= base <= 16,
    ensures
        spells(digits(number, base), number as int, base as int),
        number > 0 ==> digits(number, base)[0] != '0',
    decreases number,
{
    let own = digits(number, base);
    if number < base {
        assert(own.drop_last() =~= Seq::empty());
        reveal_with_fuel(value_in, 2);
        assert(base * 0 == 0) by (nonlinear_arith);
    } else {
        vstd::arithmetic::div_mod::lemma_div_decreases(number as int, base as int);
        vstd::arithmetic::div_mod::lemma_fundamental_div_mod(number as int, base as int);
        vstd::arithmetic::div_mod::lemma_div_non_zero(number as int, base as int);
        digits_spell(number / base, base);
        let before = digits(number / base, base);
        assert(own.drop_last() =~= before);
        assert forall|i: int| 0 <= i < own.len() implies 0 <= #[trigger] digit_value(own[i])
            < base by {
            if i < before.len() {
                assert(digit_value(before[i]) < base);
            }
        }
    }
}

/// Decodes `bytes` as UTF-8.
pub fn utf8_string(bytes: &[u8]) -> (text: Option<String>)
    ensures
        match text {
            Some(s) => utf8_text(bytes@) == Some(s@),
            None => utf8_text(bytes@) is None,
        },
{
    match core::str::from_utf8(bytes) {
        Ok(text) => Some(text.to_owned()),
        Err(_) => None,
    }
}

/// The characters of `text`.
pub fn chars_of(text: &str) -> (chars: Vec<char>)
    ensures
        chars@ == text@,
{
    let mut chars: Vec<char> = Vec::new();
    for ch in it: text.chars()
        invariant
            it.seq() == text@,
            chars@ == text@.take(it.index() as int),
    {
        chars.push(ch);
    }
    assert(text@.take(text@.len() as int) == text@);
    chars
}

/// The text made of `chars`.
pub fn string_of(chars: &[char]) -> (text: String)
    ensures
        text@ == chars@,
{
    let mut text = String::new();
    push_all(&mut text, chars);
    assert(text@ =~= chars@);
    text
}

/// A character is a number of 32 bits.
proof fn lemma_scalar(ch: char)
    ensures
        ch as u32 == ch as int,
{
}

/// The encoding of a text ends with the encoding of its last character.
proof fn lemma_last_byte(text: Seq<char>)
    requires
        text.len() > 0,
    ensures
        ({
            let bytes = vstd::utf8::encode_utf8(text);
            &&& bytes.len() > 0
            &&& bytes.last() < 128 ==> text.last() as int == bytes.last()
            &&& bytes.last() >= 128 ==> text.last() as int >= 128
        }),
    decreases text.len(),
{
    if text.len() == 1 {
        let scalar = text[0] as u32;
        lemma_scalar(text[0]);
        assert(vstd::utf8::encode_utf8(text.drop_first()) =~= Seq::empty());
        assert(vstd::utf8::encode_utf8(text) =~= vstd::utf8::encode_scalar(scalar));
        assert(scalar <= 0x7F ==> (scalar & 0x7F) as u8 == scalar) by (bit_vector);
        assert(0x80u8 | (scalar & 0x3F) as u8 >= 128) by (bit_vector);
    } else {
        lemma_last_byte(text.drop_first());
        assert(text.drop_first().last() == text.last());
    }
}

/// The last byte of a text, which is its last character if that is an ASCII one.
pub fn last_byte(text: &str) -> (last: Option<u8>)
    ensures
        match last {
            Some(byte) => {
                &&& text@.len() > 0
                &&& byte < 128 ==> text@.last() as int == byte
                &&& byte >= 128 ==> text@.last() as int >= 128
            },
            None => text@.len() == 0,
        },
{
    let bytes = text.as_bytes();
    proof {
        if text@.len() > 0 {
            lemma_last_byte(text@);
        }
    }
    if bytes.len() == 0 {
        None
    } else {
        Some(bytes[bytes.len() - 1])
    }
}

/// Puts `chars` behind `out`.
pub fn push_all(out: &mut String, chars: &[char])
    ensures
        final(out)@ == old(out)@ + chars@,
{
    let ghost before = out@;
    let mut i: usize = 0;
    assert(out@ =~= before + chars@.take(0));
    while i < chars.len()
        invariant
            i <= chars@.len(),
            out@ == before + chars@.take(i as int),
        decreases chars@.len() - i,
    {
        let ghost step = out@;
        out.push(chars[i]);
        i = i + 1;
        assert(chars@.take(i as int) =~= chars@.take(i - 1).push(chars@[i - 1]));
        assert(out@ =~= before + chars@.take(i as int));
    }
    assert(chars@.take(chars@.len() as int) =~= chars@);
}

/// Puts `text` behind `out`.
pub fn push_text(out: &mut String, text: &str)
    ensures
        final(out)@ == old(out)@ + text@,
{
    push_all(out, &chars_of(text));
}

/// Whether `chars` begin with `prefix`.
pub fn starts_with(chars: &[char], prefix: &str) -> (yes: bool)
    ensures
        yes == prefix@.is_prefix_of(chars@),
{
    let wanted = chars_of(prefix);
    if wanted.len() > chars.len() {
        return false;
    }
    let mut i: usize = 0;
    while i < wanted.len()
        invariant
            wanted@ == prefix@,
            i <= wanted@.len() <= chars@.len(),
            forall|j: int| 0 <= j < i ==> wanted@[j] == chars@[j],
        decreases wanted@.len() - i,
    {
        if wanted[i] != chars[i] {
            assert(prefix@[i as int] != chars@.subrange(0, prefix@.len() as int)[i as int]);
            return false;
        }
        i = i + 1;
    }
    assert(prefix@ =~= chars@.subrange(0, prefix@.len() as int));
    true
}

/// Whether the two texts are the same.
pub fn same_text(a: &str, b: &str) -> (same: bool)
    ensures
        same == (a@ == b@),
{
    let chars = chars_of(a);
    let same: bool = chars.len() == chars_of(b).len() && starts_with(&chars, b);
    assert(a@.subrange(0, a@.len() as int) =~= a@);
    same
}

/// Whether `chars` end with `suffix`.
pub fn ends_with(chars: &[char], suffix: &str) -> (yes: bool)
    ensures
        yes == suffix@.is_suffix_of(chars@),
{
    let wanted = chars_of(suffix);
    if wanted.len() > chars.len() {
        return false;
    }
    let start: usize = chars.len() - wanted.len();
    let mut i: usize = 0;
    while i < wanted.len()
        invariant
            wanted@ == suffix@,
            start + wanted@.len() == chars@.len(),
            chars.len() == chars@.len(),
            i <= wanted@.len(),
            forall|j: int| 0 <= j < i ==> wanted@[j] == #[trigger] chars@[start + j],
        decreases wanted@.len() - i,
    {
        if wanted[i] != chars[start + i] {
            assert(suffix@[i as int] != chars@.subrange(start as int, chars@.len() as int)[i as int]);
            return false;
        }
        i = i + 1;
    }
    assert forall|j: int| 0 <= j < suffix@.len() implies suffix@[j] == chars@.subrange(
        start as int,
        chars@.len() as int,
    )[j] by {
        assert(chars@[start + j] == wanted@[j]);
    }
    assert(suffix@ =~= chars@.subrange(start as int, chars@.len() as int));
    true
}

/// What is left of `text` behind `prefix`, if it begins with it.
pub fn strip_prefix<'a>(text: &'a str, prefix: &str) -> (rest: Option<&'a str>)
    ensures
        match rest {
            Some(s) => without_prefix(text@, prefix@) == Some(s@),
            None => without_prefix(text@, prefix@) is None,
        },
{
    let chars = chars_of(text);
    if starts_with(&chars, prefix) {
        let from = prefix.unicode_len();
        Some(text.substring_char(from, chars.len()))
    } else {
        None
    }
}

/// Puts `number` in the given base behind `out`.
pub fn push_digits(out: &mut String, number: usize, base: usize)
    requires
        2 <= base <= 16,
    ensures
        final(out)@ == old(out)@ + digits(number as nat, base as nat),
    decreases number,
{
    let ghost before = out@;
    proof {
        if number >= base {
            vstd::arithmetic::div_mod::lemma_div_decreases(number as int, base as int);
        }
        vstd::arithmetic::div_mod::lemma_mod_bound(number as int, base as int);
        if number < base {
            vstd::arithmetic::div_mod::lemma_small_mod(number as nat, base as nat);
        }
    }
    if number >= base {
        push_digits(out, number / base, base);
    }
    let last: usize = number % base;
    let ch: char = if last < 10 {
        (48 + last as u8) as char
    } else {
        (87 + last as u8) as char
    };
    out.push(ch);
    assert(out@ =~= before + digits(number as nat, base as nat));
}

} // verus!
