//! Identifiers that sort by the time of their creation.
use crate::text::{lemma_precedes_common, lemma_precedes_extended, precedes};
use vstd::prelude::*;

verus! {

/// The text of a failed reading, or the value of a successful one.
pub open spec fn reading<T>(result: Result<T, String>) -> Result<T, Seq<char>> {
    match result {
        Ok(value) => Ok(value),
        Err(error) => Err(error@),
    }
}

/// An ASCII letter or digit.
pub open spec fn is_alphanumeric(c: char) -> bool {
    ('a' <= c && c <= 'z') || ('A' <= c && c <= 'Z') || ('0' <= c && c <= '9')
}

/// The number that a character stands for as a digit of Crockford's base 32: the
/// decimal digits, and the letters but I, L, O and U, in either case.
pub open spec fn base32_digit(c: char) -> Option<int> {
    let code = c as int;
    let capital = if 97 <= code <= 122 {
        code - 32
    } else {
        code
    };
    if 48 <= capital <= 57 {
        Some(capital - 48)
    } else if 65 <= capital <= 72 {
        Some(capital - 55)
    } else if 74 <= capital <= 75 {
        Some(capital - 56)
    } else if 77 <= capital <= 78 {
        Some(capital - 57)
    } else if 80 <= capital <= 84 {
        Some(capital - 58)
    } else if 86 <= capital <= 90 {
        Some(capital - 59)
    } else {
        None
    }
}

/// The character of a digit of Crockford's base 32.
pub open spec fn base32_symbol(digit: int) -> char {
    if digit < 10 {
        (digit + 48) as char
    } else if digit < 18 {
        (digit + 55) as char
    } else if digit < 20 {
        (digit + 56) as char
    } else if digit < 22 {
        (digit + 57) as char
    } else if digit < 27 {
        (digit + 58) as char
    } else {
        (digit + 59) as char
    }
}

/// The last `width` digits of a number in base 32.
pub open spec fn base32_text(n: int, width: nat) -> Seq<char>
    decreases width,
{
    if width == 0 {
        seq![]
    } else {
        base32_text(n / 32, (width - 1) as nat).push(base32_symbol(n % 32))
    }
}

/// The number that digits of base 32 make.
pub open spec fn base32_number(text: Seq<char>) -> int
    decreases text.len(),
{
    if text.len() == 0 {
        0
    } else {
        base32_number(text.drop_last()) * 32 + base32_digit(text.last())->Some_0
    }
}

/// Whether a text has only digits of base 32.
pub open spec fn is_base32(text: Seq<char>) -> bool {
    forall|i: int| 0 <= i < text.len() ==> base32_digit(#[trigger] text[i]) is Some
}

/// The 128 bits of the identifier that a text is, or the words about why it is
/// none: 26 bytes, all of them digits of base 32. What exceeds 128 bits is lost.
#[verifier::opaque]
pub open spec fn ulid_decoding(text: Seq<char>) -> Result<u128, Seq<char>> {
    if vstd::utf8::encode_utf8(text).len() != 26 {
        Err("invalid length"@)
    } else if !is_base32(text) {
        Err("invalid character"@)
    } else {
        Ok((base32_number(text) % 0x1_0000_0000_0000_0000_0000_0000_0000_0000int) as u128)
    }
}

/// The text of an identifier: its 128 bits in 26 digits of base 32.
#[verifier::opaque]
pub open spec fn ulid_encoding(value: u128) -> Seq<char> {
    base32_text(value as int, 26)
}

/// `<ulid::Ulid as FromStr>::from_str`: a text of 26 bytes, each a digit of
/// Crockford's base 32 in either case, is read; any other is refused with the
/// words for its length or its characters.
#[verifier::external_body]
fn ulid_from_text(text: &str) -> (r: Result<u128, String>)
    ensures
        reading(r) == ulid_decoding(text@),
{
    match text.parse::<ulid::Ulid>() {
        Ok(id) => Ok(id.0),
        Err(error) => Err(error.to_string()),
    }
}

/// `ulid::Ulid::to_string`: the 26 digits of Crockford's base 32, with capital
/// letters.
#[verifier::external_body]
fn ulid_to_text(value: u128) -> (r: String)
    ensures
        r@ == ulid_encoding(value),
{
    ulid::Ulid(value).to_string()
}

/// The identifier that a text is.
pub(crate) fn parse_ulid(text: &str) -> (r: Result<u128, String>)
    ensures
        reading(r) == ulid_decoding(text@),
        r is Ok ==> is_identifier(text@),
{
    proof {
        lemma_decoded(text@);
    }
    ulid_from_text(text)
}

/// The text of an identifier.
pub(crate) fn ulid_text(value: u128) -> (r: String)
    ensures
        r@ == ulid_encoding(value),
        is_canonical(r@),
        ulid_decoding(r@)->Ok_0 == value,
        forall|smaller: u128| smaller < value ==> precedes(#[trigger] ulid_encoding(smaller), r@),
{
    proof {
        lemma_encoded(value);
        assert forall|smaller: u128| smaller < value implies precedes(
            #[trigger] ulid_encoding(smaller),
            ulid_encoding(value),
        ) by {
            lemma_encodings_ascend(smaller, value);
        }
    }
    ulid_to_text(value)
}

/// Each digit of base 32 is one byte.
proof fn lemma_one_byte_each(text: Seq<char>)
    requires
        is_base32(text),
    ensures
        vstd::utf8::encode_utf8(text).len() == text.len(),
{
    assert forall|i: int| 0 <= i < text.len() implies '\0' <= #[trigger] text[i] <= '\u{7f}' by {
        assert(base32_digit(text[i]) is Some);
    }
    vstd::utf8::is_ascii_chars_encode_utf8(text);
}

/// A text that is read as an identifier has 26 letters and digits.
pub proof fn lemma_decoded(text: Seq<char>)
    ensures
        is_ulid(text) ==> is_identifier(text),
{
    reveal(ulid_decoding);
    if is_ulid(text) {
        lemma_one_byte_each(text);
        assert forall|i: int| 0 <= i < text.len() implies is_alphanumeric(#[trigger] text[i]) by {
            assert(base32_digit(text[i]) is Some);
        }
    }
}

/// A power of 32.
spec fn base32_limit(width: nat) -> int
    decreases width,
{
    if width == 0 {
        1
    } else {
        32 * base32_limit((width - 1) as nat)
    }
}

proof fn lemma_base32_text(n: int, width: nat)
    requires
        0 <= n < base32_limit(width),
    ensures
        base32_text(n, width).len() == width,
        is_base32(base32_text(n, width)),
        base32_number(base32_text(n, width)) == n,
    decreases width,
{
    if width > 0 {
        let rest = base32_text(n / 32, (width - 1) as nat);
        let text = base32_text(n, width);
        lemma_base32_text(n / 32, (width - 1) as nat);
        assert(text.drop_last() =~= rest);
        assert(base32_digit(base32_symbol(n % 32)) == Some(n % 32));
        assert forall|i: int| 0 <= i < text.len() implies base32_digit(
            #[trigger] text[i],
        ) is Some by {
            if i < rest.len() {
                assert(text[i] == rest[i]);
            }
        }
    }
}

proof fn lemma_base32_order(a: int, b: int, width: nat)
    requires
        0 <= a < b < base32_limit(width),
    ensures
        precedes(base32_text(a, width), base32_text(b, width)),
    decreases width,
{
    if width > 0 {
        let w = (width - 1) as nat;
        lemma_base32_text(a / 32, w);
        lemma_base32_text(b / 32, w);
        let head = base32_text(a / 32, w);
        let x = base32_symbol(a % 32);
        let y = base32_symbol(b % 32);
        if a / 32 < b / 32 {
            lemma_base32_order(a / 32, b / 32, w);
            lemma_precedes_extended(head, base32_text(b / 32, w), x, y);
        } else {
            assert(a / 32 == b / 32);
            lemma_precedes_common(head, seq![x], seq![y]);
            assert(head + seq![x] =~= head.push(x));
            assert(head + seq![y] =~= head.push(y));
            assert((x as int) < (y as int));
            assert(seq![x][0] != seq![y][0]);
        }
    }
}

proof fn lemma_limit()
    ensures
        base32_limit(26) > u128::MAX,
{
    reveal_with_fuel(base32_limit, 27);
}

/// The text of an identifier is in canonical form and reads back as it.
proof fn lemma_encoded(value: u128)
    ensures
        is_canonical(ulid_encoding(value)),
        ulid_decoding(ulid_encoding(value)) == Ok::<u128, Seq<char>>(value),
{
    reveal(ulid_decoding);
    reveal(ulid_encoding);
    lemma_limit();
    lemma_base32_text(value as int, 26);
    let text = ulid_encoding(value);
    lemma_one_byte_each(text);
    lemma_decoded(text);
}

/// The texts of identifiers sort as the identifiers do.
proof fn lemma_encodings_ascend(smaller: u128, larger: u128)
    requires
        smaller < larger,
    ensures
        precedes(ulid_encoding(smaller), ulid_encoding(larger)),
{
    reveal(ulid_encoding);
    lemma_limit();
    lemma_base32_order(smaller as int, larger as int, 26);
}

/// `ulid::Ulid::timestamp_ms`: the first 48 of the 128 bits.
#[verifier::external_body]
pub(crate) fn ulid_timestamp_ms(value: u128) -> (r: u64)
    ensures
        r as int == value as int / 0x1_0000_0000_0000_0000_0000int,
        r < 0x1_0000_0000_0000u64,
{
    ulid::Ulid(value).timestamp_ms()
}

/// `ulid::Ulid::new`: a new identifier from the clock and from chance, of
/// which nothing is claimed.
#[verifier::external_body]
fn fresh_ulid() -> (r: u128) {
    ulid::Ulid::new().0
}

/// The generator of `ulid`, which remembers the identifier that it gave last.
#[verifier::external_type_specification]
#[verifier::external_body]
pub struct ExGenerator(ulid::Generator);

/// The identifier that a generator holds as its last one.
pub uninterp spec fn generator_last(generator: ulid::Generator) -> u128;

/// `ulid::Generator::new`: the generator starts from the nil identifier.
#[verifier::external_body]
fn new_generator() -> (r: ulid::Generator)
    ensures
        generator_last(r) == 0,
{
    ulid::Generator::new()
}

/// Whether no identifier of the same millisecond follows: its 80 random bits are
/// all ones.
pub open spec fn is_exhausted(last: u128) -> bool {
    last as int % 0x1_0000_0000_0000_0000_0000int == 0xffff_ffff_ffff_ffff_ffffint
}

/// `ulid::Generator::generate`, which guarantees each identifier to be larger
/// than the one before. Which one it is rests on the clock and on chance. It
/// fails only where the random bits are used up, and then leaves the generator
/// as it was.
#[verifier::external_body]
fn generate(generator: &mut ulid::Generator) -> (r: Option<u128>)
    ensures
        match r {
            Some(value) => value > generator_last(*old(generator)) && generator_last(*final(generator))
                == value,
            None => is_exhausted(generator_last(*old(generator))) && generator_last(*final(generator))
                == generator_last(*old(generator)),
        },
{
    match generator.generate() {
        Ok(id) => Some(id.0),
        Err(_) => None,
    }
}

/// The identifiers of one process.
pub struct IdSource {
    generator: ulid::Generator,
}

impl IdSource {
    /// The identifier that the source gave last in order.
    pub closed spec fn last(self) -> u128 {
        generator_last(self.generator)
    }

    /// A source that has given no identifier yet.
    pub fn new() -> (r: Self)
        ensures
            r.last() == 0,
    {
        IdSource { generator: new_generator() }
    }

    /// The next identifier: the generator's, which is larger than the last, or
    /// an unordered one where the generator has none left in this millisecond
    /// and stays as it is.
    pub fn next_ulid(&mut self) -> (r: u128)
        ensures
            (r == final(self).last() && r > old(self).last()) || (is_exhausted(old(self).last())
                && final(self).last() == old(self).last()),
    {
        match generate(&mut self.generator) {
            Some(value) => value,
            None => fresh_ulid(),
        }
    }

    /// The text of the next identifier.
    pub fn next_id(&mut self) -> (r: String)
        ensures
            is_next_id(r@, *old(self), *final(self)),
    {
        let value: u128 = self.next_ulid();
        ulid_text(value)
    }
}

/// Whether this is what a source of identifiers gave: one that follows those
/// before it in order, or, where none is left in the millisecond, one outside the
/// order, which leaves the source as it was.
pub open spec fn is_next_id(id: Seq<char>, before: IdSource, after: IdSource) -> bool {
    &&& is_canonical(id)
    &&& {
        ||| after.last() > before.last() && id == ulid_encoding(after.last()) && precedes(
            ulid_encoding(before.last()),
            id,
        )
        ||| is_exhausted(before.last()) && after.last() == before.last()
    }
}

/// An unordered identifier, such as checkpoints and reports have.
pub fn unordered_id() -> (r: String)
    ensures
        is_canonical(r@),
{
    ulid_text(fresh_ulid())
}

/// A number from chance, for the names of temporary files.
pub fn random_number() -> (r: u64) {
    random_suffix(fresh_ulid())
}

/// The 64 random bits at the end of an identifier.
pub fn random_suffix(value: u128) -> (r: u64)
    ensures
        r as int == value as int % 0x1_0000_0000_0000_0000int,
{
    (value % 0x1_0000_0000_0000_0000u128) as u64
}

/// Whether a text is an identifier.
pub open spec fn is_ulid(text: Seq<char>) -> bool {
    ulid_decoding(text) is Ok
}

/// Whether a text is an identifier: 26 letters and digits that read as one.
pub open spec fn is_identifier(text: Seq<char>) -> bool {
    &&& is_ulid(text)
    &&& text.len() == 26
    &&& forall|i: int| 0 <= i < text.len() ==> is_alphanumeric(#[trigger] text[i])
}

/// Whether a text is an identifier in the form that identifiers are written in.
pub open spec fn is_canonical(text: Seq<char>) -> bool {
    is_identifier(text) && ulid_encoding(ulid_decoding(text)->Ok_0) == text
}

/// The creation time of an identifier in milliseconds.
pub open spec fn ulid_millis(text: Seq<char>) -> int {
    ulid_decoding(text)->Ok_0 as int / 0x1_0000_0000_0000_0000_0000int
}

/// The creation time of an identifier, where the text is one.
pub fn ulid_time(text: &str) -> (r: Option<u64>)
    ensures
        match r {
            Some(millis) => is_ulid(text@) && millis as int == ulid_millis(text@) && millis
                < 0x1_0000_0000_0000u64,
            None => !is_ulid(text@),
        },
{
    match parse_ulid(text) {
        Ok(value) => Some(ulid_timestamp_ms(value)),
        Err(_) => None,
    }
}

} // verus!
