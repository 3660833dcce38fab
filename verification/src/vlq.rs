//! The number encodings of sourcemaps: the zigzag varints of Bun's binary form, and the
//! Base64 VLQ digits of the standard `mappings` string.

use vstd::prelude::*;

use crate::error::{ExtractError, Failure};

verus! {

/// The signed number that a zigzag code stands for: 0, -1, 1, -2, 2, ...
pub open spec fn zigzag(code: nat) -> int {
    if code % 2 == 0 {
        code as int / 2
    } else {
        -(code as int / 2) - 1
    }
}

/// The number that `count` bytes from `pos` on spell, seven bits each, the lowest first.
pub open spec fn base128(bytes: Seq<u8>, pos: int, count: nat) -> nat
    decreases count,
{
    if count == 0 {
        0
    } else {
        (bytes[pos] % 128) as nat + 128 * base128(bytes, pos + 1, (count - 1) as nat)
    }
}

/// How many bytes the varint at `pos` has, given that its first `seen` bytes all announce
/// another one: it ends with the first byte below 128, and may have five bytes at most.
pub open spec fn varint_length(bytes: Seq<u8>, pos: int, seen: int) -> Result<int, Failure>
    decreases 5 - seen,
{
    if seen >= 5 {
        Err(Failure::SourceMapParseFailed { reason: "internal sourcemap varint too long"@ })
    } else if pos + seen >= bytes.len() {
        Err(Failure::SourceMapParseFailed { reason: "internal sourcemap varint out of bounds"@ })
    } else if bytes[pos + seen] < 128 {
        Ok(seen + 1)
    } else {
        varint_length(bytes, pos, seen + 1)
    }
}

/// The varint at `pos`: its value, cut to 32 bits, and the position behind it.
pub open spec fn varint_at(bytes: Seq<u8>, pos: int) -> Result<(i32, int), Failure> {
    match varint_length(bytes, pos, 0) {
        Err(failure) => Err(failure),
        Ok(length) => Ok(
            (
                zigzag(base128(bytes, pos, length as nat) % 0x1_0000_0000) as i32,
                pos + length,
            ),
        ),
    }
}

/// A varint lies inside the bytes and has one byte at least.
pub proof fn lemma_varint_bounds(bytes: Seq<u8>, pos: int)
    ensures
        varint_at(bytes, pos) matches Ok((_, next)) ==> pos < next <= bytes.len(),
{
    reveal_with_fuel(varint_length, 6);
}

/// The signed number that `value` stands for in zigzag code.
pub fn zigzag_decode(value: u32) -> (number: i32)
    ensures
        number == zigzag(value as nat),
{
    let half: i32 = (value / 2) as i32;
    if value % 2 == 0 {
        half
    } else {
        -half - 1
    }
}

/// Putting seven more bits above `count` groups of seven adds them at their place value, cut
/// to 32 bits.
proof fn lemma_next_group(result: u32, low: u32, count: u32)
    requires
        1 <= count <= 4,
        low < 128,
        count == 1 ==> result < 0x80,
        count == 2 ==> result < 0x4000,
        count == 3 ==> result < 0x20_0000,
        count == 4 ==> result < 0x1000_0000,
    ensures
        count == 1 ==> (result | (low << 7)) == result + low * 0x80,
        count == 2 ==> (result | (low << 14)) == result + low * 0x4000,
        count == 3 ==> (result | (low << 21)) == result + low * 0x20_0000,
        count == 4 ==> (result | (low << 28)) == (result + low * 0x1000_0000) % 0x1_0000_0000,
{
    assert(result < 0x80 && low < 128 ==> (result | (low << 7)) == result + low * 0x80)
        by (bit_vector);
    assert(result < 0x4000 && low < 128 ==> (result | (low << 14)) == result + low * 0x4000)
        by (bit_vector);
    assert(result < 0x20_0000 && low < 128 ==> (result | (low << 21)) == result + low * 0x20_0000)
        by (bit_vector);
    assert(result < 0x1000_0000 && low < 128 ==> (result | (low << 28)) == (result + low
        * 0x1000_0000) % 0x1_0000_0000) by (bit_vector);
}

/// Where the search for a varint at `pos` ends if there is none: behind the five bytes that one may
/// have, or at the end of the bytes.
pub open spec fn stopped_at(bytes: Seq<u8>, pos: int) -> int {
    if pos >= bytes.len() {
        pos
    } else if pos + 5 < bytes.len() {
        pos + 5
    } else {
        bytes.len() as int
    }
}

/// Reads the zigzag varint at `pos` and moves `pos` behind it; where there is none, `pos`
/// stands behind the bytes that were looked at.
#[verifier::rlimit(30)]
pub fn read_varint(bytes: &[u8], pos: &mut usize) -> (result: Result<i32, ExtractError>)
    ensures
        match result {
            Ok(value) => varint_at(bytes@, *old(pos) as int) == Ok::<(i32, int), Failure>(
                (value, *final(pos) as int),
            ),
            Err(e) => varint_at(bytes@, *old(pos) as int) == Err::<(i32, int), Failure>(e@),
        },
        result is Err ==> *final(pos) == stopped_at(bytes@, *old(pos) as int),
{
    let start: usize = *pos;
    if start >= bytes.len() {
        return Err(
            ExtractError::SourceMapParseFailed {
                reason: "internal sourcemap varint out of bounds",
            },
        );
    }
    let first: u8 = bytes[start];
    *pos = start + 1;
    proof {
        reveal_with_fuel(varint_length, 6);
        reveal_with_fuel(base128, 6);
        assert(first & 0x7f == first % 128) by (bit_vector);
    }
    if first < 0x80 {
        return Ok(zigzag_decode(first as u32));
    }
    let mut result: u32 = (first & 0x7f) as u32;
    let mut count: u32 = 1;
    loop
        invariant
            start == *old(pos),
            start < bytes@.len(),
            bytes.len() == bytes@.len(),
            *pos == start + count,
            *pos <= bytes@.len(),
            1 <= count <= 5,
            forall|i: int| 0 <= i < count ==> bytes@[#[trigger] (start + i)] >= 128,
            varint_length(bytes@, start as int, 0) == varint_length(
                bytes@,
                start as int,
                count as int,
            ),
            count < 5 ==> result == base128(bytes@, start as int, count as nat),
            count == 1 ==> result < 0x80,
            count == 2 ==> result < 0x4000,
            count == 3 ==> result < 0x20_0000,
            count == 4 ==> result < 0x1000_0000,
        decreases 5 - count,
    {
        if count >= 5 {
            return Err(
                ExtractError::SourceMapParseFailed {
                    reason: "internal sourcemap varint too long",
                },
            );
        }
        if *pos >= bytes.len() {
            return Err(
                ExtractError::SourceMapParseFailed {
                    reason: "internal sourcemap varint out of bounds",
                },
            );
        }
        let byte: u8 = bytes[*pos];
        let low: u32 = (byte & 0x7f) as u32;
        proof {
            assert(byte & 0x7f == byte % 128) by (bit_vector);
            assert((byte & 0x80 == 0) == (byte < 128)) by (bit_vector);
            lemma_next_group(result, low, count);
            reveal_with_fuel(base128, 6);
            assert(bytes@[start + count] == byte);
        }
        *pos = *pos + 1;
        result = result | (low << (7 * count));
        count = count + 1;
        if byte & 0x80 == 0 {
            return Ok(zigzag_decode(result));
        }
    }
}

/// The Base64 character for a six-bit digit.
pub open spec fn base64_char(value: int) -> char {
    if value < 26 {
        (65 + value) as char
    } else if value < 52 {
        (71 + value) as char
    } else if value < 62 {
        (value - 4) as char
    } else if value == 62 {
        '+'
    } else {
        '/'
    }
}

/// The six-bit digit that a Base64 character stands for.
pub open spec fn base64_value(ch: char) -> Option<int> {
    if 'A' <= ch <= 'Z' {
        Some(ch as int - 65)
    } else if 'a' <= ch <= 'z' {
        Some(ch as int - 71)
    } else if '0' <= ch <= '9' {
        Some(ch as int + 4)
    } else if ch == '+' {
        Some(62)
    } else if ch == '/' {
        Some(63)
    } else {
        None
    }
}

/// The unsigned word that carries `value`: twice its magnitude, and the sign in the lowest
/// bit. The word has 32 bits, so the magnitude of `i32::MIN` is lost.
pub open spec fn vlq_word(value: i32) -> nat {
    if value >= 0 {
        (2 * value) as nat
    } else {
        ((-2 * value) % 0x1_0000_0000 + 1) as nat
    }
}

/// The signed number that a word carries.
pub open spec fn vlq_value(word: nat) -> int {
    if word % 2 == 0 {
        word as int / 2
    } else {
        -(word as int / 2)
    }
}

/// `word` in Base64 digits of five bits each, the lowest first; every digit but the last is
/// marked by its sixth bit.
pub open spec fn vlq_digits(word: nat) -> Seq<char>
    decreases word,
{
    if word < 32 {
        seq![base64_char(word as int)]
    } else {
        seq![base64_char((32 + word % 32) as int)] + vlq_digits(word / 32)
    }
}

/// The VLQ text of `value`.
pub open spec fn vlq_text(value: i32) -> Seq<char> {
    vlq_digits(vlq_word(value))
}

/// Reads one word in VLQ digits off the front of `text`: the word, and what is left.
pub open spec fn read_vlq_word(text: Seq<char>) -> Option<(nat, Seq<char>)>
    decreases text.len(),
{
    if text.len() == 0 {
        None
    } else {
        match base64_value(text[0]) {
            None => None,
            Some(digit) => if digit < 32 {
                Some((digit as nat, text.drop_first()))
            } else {
                match read_vlq_word(text.drop_first()) {
                    None => None,
                    Some((high, rest)) => Some(((digit - 32 + 32 * high) as nat, rest)),
                }
            },
        }
    }
}

/// Reads one signed number in VLQ digits off the front of `text`.
pub open spec fn read_vlq(text: Seq<char>) -> Option<(int, Seq<char>)> {
    match read_vlq_word(text) {
        None => None,
        Some((word, rest)) => Some((vlq_value(word), rest)),
    }
}

/// The zigzag code of a number.
pub open spec fn zigzag_code(value: i32) -> nat {
    if value >= 0 {
        (2 * value) as nat
    } else {
        (-2 * value - 1) as nat
    }
}

/// `value` as a varint: seven bits a byte, the lowest first, every byte but the last marked by
/// its eighth bit.
pub open spec fn varint_bytes(value: nat) -> Seq<u8>
    decreases value,
{
    if value < 128 {
        seq![value as u8]
    } else {
        seq![(128 + value % 128) as u8] + varint_bytes(value / 128)
    }
}

/// Every `i32` has a zigzag code of 32 bits, and decoding the code gives the number back.
pub proof fn zigzag_round_trip(value: i32)
    ensures
        zigzag_code(value) <= u32::MAX,
        zigzag(zigzag_code(value)) == value,
{
}

/// Every 32-bit zigzag code decodes to an `i32` whose code it is.
pub proof fn zigzag_code_round_trip(code: u32)
    ensures
        i32::MIN <= zigzag(code as nat) <= i32::MAX,
        zigzag_code(zigzag(code as nat) as i32) == code,
{
}

/// A number below `2^35` written as a varint at `pos` is read back, cut to 32 bits, from its
/// own bytes alone.
proof fn lemma_varint_read(bytes: Seq<u8>, pos: int, value: nat, seen: int)
    requires
        0 <= seen < 5,
        0 <= pos,
        seen == 0 ==> value < 0x8_0000_0000,
        seen == 1 ==> value < 0x1000_0000,
        seen == 2 ==> value < 0x20_0000,
        seen == 3 ==> value < 0x4000,
        seen == 4 ==> value < 0x80,
        pos + seen + varint_bytes(value).len() <= bytes.len(),
        bytes.subrange(pos + seen, pos + seen + varint_bytes(value).len()) == varint_bytes(value),
    ensures
        varint_length(bytes, pos, seen) == Ok::<int, Failure>(seen + varint_bytes(value).len()),
        varint_bytes(value).len() >= 1,
        base128(bytes, pos + seen, varint_bytes(value).len()) == value,
    decreases value,
{
    let own = varint_bytes(value);
    assert(bytes.subrange(pos + seen, pos + seen + own.len())[0] == own[0]);
    assert(bytes[pos + seen] == own[0]);
    if value < 128 {
        reveal_with_fuel(base128, 2);
    } else {
        let rest = varint_bytes(value / 128);
        assert(own.drop_first() =~= rest);
        assert(bytes.subrange(pos + seen + 1, pos + seen + 1 + rest.len()) =~= bytes.subrange(
            pos + seen,
            pos + seen + own.len(),
        ).drop_first());
        lemma_varint_read(bytes, pos, value / 128, seen + 1);
    }
}

/// The varint bytes of `value` at `pos` are read back.
pub proof fn lemma_varint_at(bytes: Seq<u8>, pos: int, value: i32)
    requires
        0 <= pos,
        pos + varint_bytes(zigzag_code(value)).len() <= bytes.len(),
        bytes.subrange(pos, pos + varint_bytes(zigzag_code(value)).len()) == varint_bytes(
            zigzag_code(value),
        ),
    ensures
        varint_at(bytes, pos) == Ok::<(i32, int), Failure>(
            (value, pos + varint_bytes(zigzag_code(value)).len()),
        ),
{
    let code = zigzag_code(value);
    zigzag_round_trip(value);
    lemma_varint_read(bytes, pos, code, 0);
    assert(code % 0x1_0000_0000 == code);
}

/// What a varint writer wrote for `value` is read back by [`read_varint`], which then stands
/// behind it, whatever surrounds it.
pub proof fn varint_round_trip(before: Seq<u8>, value: i32, after: Seq<u8>)
    ensures
        varint_at(before + varint_bytes(zigzag_code(value)) + after, before.len() as int) == Ok::<
            (i32, int),
            Failure,
        >((value, (before.len() + varint_bytes(zigzag_code(value)).len()) as int)),
{
    let own = varint_bytes(zigzag_code(value));
    let all = before + own + after;
    assert(all.subrange(before.len() as int, (before.len() + own.len()) as int) =~= own);
    lemma_varint_at(all, before.len() as int, value);
}

/// The digits of a word are read back, whatever follows them.
pub proof fn lemma_vlq_word_read(word: nat, rest: Seq<char>)
    ensures
        read_vlq_word(vlq_digits(word) + rest) == Some((word, rest)),
        vlq_digits(word).len() >= 1,
    decreases word,
{
    let own = vlq_digits(word);
    let all = own + rest;
    if word < 32 {
        assert(all[0] == base64_char(word as int));
        assert(all.drop_first() =~= rest);
    } else {
        let high = vlq_digits(word / 32);
        assert(all[0] == base64_char((32 + word % 32) as int));
        assert(base64_value(all[0]) == Some((32 + word % 32) as int));
        assert(all.drop_first() =~= high + rest);
        lemma_vlq_word_read(word / 32, rest);
    }
}

/// The VLQ text of a number is read back as that number by the standard decoding, whatever
/// follows it. `i32::MIN` is left out: its magnitude does not fit.
pub proof fn vlq_round_trip(value: i32, rest: Seq<char>)
    requires
        value != i32::MIN,
    ensures
        read_vlq(vlq_text(value) + rest) == Some((value as int, rest)),
{
    lemma_vlq_word_read(vlq_word(value), rest);
    assert(vlq_value(vlq_word(value)) == value);
}

/// VLQ text has Base64 characters only, and at least one.
pub proof fn lemma_vlq_digits_alphabet(word: nat)
    ensures
        vlq_digits(word).len() >= 1,
        forall|i: int|
            0 <= i < vlq_digits(word).len() ==> base64_value(#[trigger] vlq_digits(word)[i])
                is Some,
    decreases word,
{
    if word >= 32 {
        lemma_vlq_digits_alphabet(word / 32);
    }
}

/// The Base64 character for a six-bit digit.
fn base64_digit(value: u32) -> (ch: char)
    requires
        value < 64,
    ensures
        ch == base64_char(value as int),
{
    if value < 26 {
        (65 + value as u8) as char
    } else if value < 52 {
        (71 + value as u8) as char
    } else if value < 62 {
        (value as u8 - 4) as char
    } else if value == 62 {
        '+'
    } else {
        '/'
    }
}

/// Puts the VLQ text of `value` behind `out`.
pub fn push_vlq(out: &mut String, value: i32)
    ensures
        final(out)@ == old(out)@ + vlq_text(value),
{
    let mut vlq: u32 = if value >= 0 {
        value as u32 * 2
    } else if value == i32::MIN {
        1
    } else {
        (-value) as u32 * 2 + 1
    };
    let ghost before = out@;
    assert(vlq == vlq_word(value));
    assert(before + vlq_digits(vlq as nat) =~= out@ + vlq_digits(vlq as nat));
    while vlq >= 32
        invariant
            before + vlq_text(value) == out@ + vlq_digits(vlq as nat),
        decreases vlq,
    {
        let ghost step = out@;
        out.push(base64_digit(32 + vlq % 32));
        assert(step + vlq_digits(vlq as nat) =~= out@ + vlq_digits((vlq / 32) as nat));
        vlq = vlq / 32;
    }
    let ghost step = out@;
    out.push(base64_digit(vlq));
    assert(step + vlq_digits(vlq as nat) =~= out@);
}

/// The digits are those of Base64: the capital letters, the small ones, the decimal digits, and then
/// `+` and `/`.
pub proof fn base64_alphabet(value: int)
    requires
        0 <= value < 64,
    ensures
        base64_char(value)
            == "ABCDEFGHIJKLMNOPQRSTUVWXYZabcdefghijklmnopqrstuvwxyz0123456789+/"@[value],
        base64_value(base64_char(value)) == Some(value),
{
    reveal_strlit("ABCDEFGHIJKLMNOPQRSTUVWXYZabcdefghijklmnopqrstuvwxyz0123456789+/");
}

/// What VLQ digits add up to: five bits each, the lowest first.
pub open spec fn digit_sum(text: Seq<char>) -> int
    decreases text.len(),
{
    if text.len() == 0 {
        0
    } else {
        (match base64_value(text[0]) {
            Some(digit) => digit % 32,
            None => 0,
        }) + 32 * digit_sum(text.drop_first())
    }
}

/// Whether `text` is one VLQ number: every digit but the last announces another one by its sixth
/// bit, and the last is not superfluous.
pub open spec fn is_one_number(text: Seq<char>) -> bool {
    &&& text.len() > 0
    &&& forall|i: int|
        0 <= i < text.len() ==> match #[trigger] base64_value(text[i]) {
            Some(digit) => digit >= 32 <==> i < text.len() - 1,
            None => false,
        }
    &&& text.len() > 1 ==> base64_value(text.last()) != Some(0int)
}

proof fn lemma_digit_sum(word: nat)
    ensures
        is_one_number(vlq_digits(word)),
        digit_sum(vlq_digits(word)) == word,
        word > 0 ==> base64_value(vlq_digits(word).last()) != Some(0int),
    decreases word,
{
    let text = vlq_digits(word);
    if word < 32 {
        base64_alphabet(word as int);
        assert(text.drop_first() =~= Seq::empty());
        reveal_with_fuel(digit_sum, 2);
    } else {
        base64_alphabet((32 + word % 32) as int);
        lemma_digit_sum(word / 32);
        let rest = vlq_digits(word / 32);
        assert(text.drop_first() =~= rest);
        assert(text.last() == rest.last());
        assert forall|i: int| 0 <= i < text.len() implies match #[trigger] base64_value(text[i]) {
            Some(digit) => digit >= 32 <==> i < text.len() - 1,
            None => false,
        } by {
            if i > 0 {
                assert(text[i] == rest[i - 1]);
                assert(base64_value(rest[i - 1]) is Some);
            }
        }
    }
}

/// How a number is written in the standard `mappings` string: as one VLQ number, whose bits are the
/// magnitude with the sign behind them in the lowest bit.
pub proof fn vlq_of_number(value: i32)
    requires
        value > i32::MIN,
    ensures
        is_one_number(vlq_text(value)),
        value >= 0 ==> digit_sum(vlq_text(value)) == 2 * value,
        value < 0 ==> digit_sum(vlq_text(value)) == 2 * -value + 1,
{
    lemma_digit_sum(vlq_word(value));
}

/// The numbers that zigzag codes stand for: even codes for those from zero up, odd ones for those
/// from minus one down.
pub proof fn zigzag_numbers(number: nat)
    ensures
        zigzag(2 * number) == number,
        zigzag(2 * number + 1) == -(number as int) - 1,
{
}

/// What a varint is: up to five bytes of seven bits each, the lowest first, all but the last with
/// their highest bit set, for the zigzag code of a number in 32 bits.
pub proof fn varint_bits(bytes: Seq<u8>, pos: int)
    requires
        0 <= pos,
    ensures
        ({
            let at = |i: int| (bytes[pos + i] % 128) as int;
            let more = |i: int| pos + i < bytes.len() && bytes[pos + i] >= 128;
            let ends = |i: int| pos + i < bytes.len() && bytes[pos + i] < 128;
            &&& ends(0) ==> varint_at(bytes, pos) == Ok::<(i32, int), Failure>(
                (zigzag(at(0) as nat) as i32, pos + 1),
            )
            &&& more(0) && ends(1) ==> varint_at(bytes, pos) == Ok::<(i32, int), Failure>(
                (zigzag((at(0) + 0x80 * at(1)) as nat) as i32, pos + 2),
            )
            &&& more(0) && more(1) && ends(2) ==> varint_at(bytes, pos) == Ok::<
                (i32, int),
                Failure,
            >((zigzag((at(0) + 0x80 * at(1) + 0x4000 * at(2)) as nat) as i32, pos + 3))
            &&& more(0) && more(1) && more(2) && ends(3) ==> varint_at(bytes, pos) == Ok::<
                (i32, int),
                Failure,
            >(
                (
                    zigzag(
                        (at(0) + 0x80 * at(1) + 0x4000 * at(2) + 0x20_0000 * at(3)) as nat,
                    ) as i32,
                    pos + 4,
                ),
            )
            &&& more(0) && more(1) && more(2) && more(3) && ends(4) ==> varint_at(bytes, pos)
                == Ok::<(i32, int), Failure>(
                (
                    zigzag(
                        ((at(0) + 0x80 * at(1) + 0x4000 * at(2) + 0x20_0000 * at(3) + 0x1000_0000
                            * at(4)) % 0x1_0000_0000) as nat,
                    ) as i32,
                    pos + 5,
                ),
            )
            &&& more(0) && more(1) && more(2) && more(3) && more(4) ==> varint_at(bytes, pos)
                == Err::<(i32, int), Failure>(
                Failure::SourceMapParseFailed { reason: "internal sourcemap varint too long"@ },
            )
            &&& pos >= bytes.len() || (more(0) && pos + 1 >= bytes.len()) || (more(0) && more(1)
                && pos + 2 >= bytes.len()) || (more(0) && more(1) && more(2) && pos + 3
                >= bytes.len()) || (more(0) && more(1) && more(2) && more(3) && pos + 4
                >= bytes.len()) ==> varint_at(bytes, pos) == Err::<(i32, int), Failure>(
                Failure::SourceMapParseFailed { reason: "internal sourcemap varint out of bounds"@ },
            )
        }),
{
    reveal_with_fuel(varint_length, 6);
    reveal_with_fuel(base128, 6);
}

} // verus!
