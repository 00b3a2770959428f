//! Text: characters, decimal and hexadecimal numbers, UTF-8.
use vstd::prelude::*;
use vstd::string::*;
use vstd::utf8::{decode_utf8, valid_utf8};

verus! {

/// `String::push` appends a character.
pub assume_specification[ String::push ](s: &mut String, c: char)
    ensures
        final(s)@ == old(s)@.push(c),
;

/// What `String::from_utf8_lossy` makes of the bytes.
pub uninterp spec fn lossy_text(bytes: Seq<u8>) -> Seq<char>;

/// Calls `String::from_utf8_lossy`: a text that depends on the bytes alone,
/// and where they are valid UTF-8 the text that they encode.
#[verifier::external_body]
pub(crate) fn from_utf8_lossy(bytes: &[u8]) -> (s: String)
    ensures
        s@ == lossy_text(bytes@),
        valid_utf8(bytes@) ==> s@ == decode_utf8(bytes@),
{
    String::from_utf8_lossy(bytes).into_owned()
}

/// Calls `std::str::from_utf8`: the text that the bytes encode, or `None`
/// where they are not valid UTF-8.
#[verifier::external_body]
pub(crate) fn from_utf8(bytes: &[u8]) -> (s: Option<&str>)
    ensures
        match s {
            Some(t) => valid_utf8(bytes@) && t@ == decode_utf8(bytes@),
            None => !valid_utf8(bytes@),
        },
{
    std::str::from_utf8(bytes).ok()
}

/// An optional text.
pub open spec fn text_of(s: Option<String>) -> Option<Seq<char>> {
    match s {
        Some(s) => Some(s@),
        None => None,
    }
}

/// The texts of a list of strings.
pub open spec fn texts(strings: Seq<String>) -> Seq<Seq<char>> {
    strings.map_values(|s: String| s@)
}

/// The characters of a text.
pub fn chars_of(s: &str) -> (r: Vec<char>)
    ensures
        r@ == s@,
{
    let mut r: Vec<char> = Vec::new();
    for c in it: s.chars()
        invariant
            it.seq() == s@,
            r@ == s@.take(it.index() as int),
    {
        r.push(c);
        proof {
            assert(s@.take(it.index() + 1) =~= s@.take(it.index() as int).push(c));
        }
    }
    proof {
        assert(s@.take(s@.len() as int) =~= s@);
    }
    r
}

/// The text of some characters.
pub fn string_of(chars: &[char]) -> (s: String)
    ensures
        s@ == chars@,
{
    let mut s = String::new();
    let mut i: usize = 0;
    while i < chars.len()
        invariant
            i <= chars@.len(),
            s@ == chars@.take(i as int),
        decreases chars@.len() - i,
    {
        s.push(chars[i]);
        proof {
            assert(chars@.take(i + 1) =~= chars@.take(i as int).push(chars@[i as int]));
        }
        i += 1;
    }
    proof {
        assert(chars@.take(i as int) =~= chars@);
    }
    s
}

/// Tells whether the characters start with those of a text.
pub fn starts_with(chars: &[char], prefix: &str) -> (r: bool)
    ensures
        r == prefix@.is_prefix_of(chars@),
{
    let p = chars_of(prefix);
    if chars.len() < p.len() {
        return false;
    }
    let mut i: usize = 0;
    while i < p.len()
        invariant
            i <= p@.len() <= chars@.len(),
            p@ == prefix@,
            forall|j: int| 0 <= j < i ==> p@[j] == chars@[j],
        decreases p@.len() - i,
    {
        if chars[i] != p[i] {
            proof {
                assert(!(prefix@ =~= chars@.take(prefix@.len() as int)));
            }
            return false;
        }
        i += 1;
    }
    proof {
        assert(prefix@ =~= chars@.take(prefix@.len() as int));
    }
    true
}

/// Tells whether two texts are the same.
pub fn same_text(a: &str, b: &str) -> (r: bool)
    ensures
        r == (a@ == b@),
{
    let chars = chars_of(a);
    let length = chars_of(b).len();
    let r = chars.len() == length && starts_with(chars.as_slice(), b);
    proof {
        if r {
            assert(a@.take(b@.len() as int) =~= a@);
        } else if a@ == b@ {
            assert(b@ =~= a@.take(b@.len() as int));
        }
    }
    r
}

/// The decimal digits of a number.
pub open spec fn decimal(n: nat) -> Seq<char>
    decreases n,
{
    if n < 10 {
        seq![('0' as u32 + n) as char]
    } else {
        decimal(n / 10).push(('0' as u32 + n % 10) as char)
    }
}

/// The character of a decimal digit.
fn digit(d: u64) -> (c: char)
    requires
        d < 10,
    ensures
        c == ('0' as u32 + d) as char,
{
    (48u8 + d as u8) as char
}

/// Writes a number in decimal.
pub fn decimal_text(n: u64) -> (s: String)
    ensures
        s@ == decimal(n as nat),
    decreases n,
{
    if n < 10 {
        let mut s = String::new();
        s.push(digit(n));
        s
    } else {
        let mut s = decimal_text(n / 10);
        s.push(digit(n % 10));
        s
    }
}

/// A hexadecimal digit, in upper case.
pub open spec fn hex_digit(d: nat) -> char {
    if d < 10 {
        ('0' as u32 + d) as char
    } else {
        ('A' as u32 + (d - 10)) as char
    }
}

/// Writes a hexadecimal digit in upper case.
pub(crate) fn hex_char(d: u8) -> (c: char)
    requires
        d < 16,
    ensures
        c == hex_digit(d as nat),
{
    if d < 10 {
        (48u8 + d) as char
    } else {
        (55u8 + d) as char
    }
}

/// A letter or a digit of ASCII.
pub open spec fn ascii_alphanumeric(c: char) -> bool {
    'a' <= c <= 'z' || 'A' <= c <= 'Z' || '0' <= c <= '9'
}

/// Tells whether a byte is a letter or a digit of ASCII.
pub(crate) fn is_ascii_alphanumeric(byte: u8) -> (r: bool)
    ensures
        r == ascii_alphanumeric(byte as char),
{
    (97 <= byte && byte <= 122) || (65 <= byte && byte <= 90) || (48 <= byte && byte <= 57)
}

/// Ten to the power of `digits`.
spec fn power_of_ten(digits: nat) -> nat
    decreases digits,
{
    if digits == 0 {
        1
    } else {
        10 * power_of_ten((digits - 1) as nat)
    }
}

/// A number below a power of ten has no more digits than the power.
proof fn lemma_decimal_below(n: nat, digits: nat)
    requires
        digits > 0,
        n < power_of_ten(digits),
    ensures
        1 <= decimal(n).len() <= digits,
    decreases digits,
{
    reveal_with_fuel(power_of_ten, 2);
    if n >= 10 {
        lemma_decimal_below(n / 10, (digits - 1) as nat);
    }
}

/// A number of 64 bits has at most twenty digits.
pub proof fn lemma_decimal_len(n: u64)
    ensures
        1 <= decimal(n as nat).len() <= 20,
{
    reveal_with_fuel(power_of_ten, 21);
    lemma_decimal_below(n as nat, 20);
}

/// A number is written digit by digit: the last digit stands for what is left
/// of the number by ten, and those before it for the tens.
pub proof fn law_decimal_digits(n: nat, d: nat)
    requires
        d < 10,
    ensures
        decimal(d).len() == 1,
        decimal(d)[0] as u32 == '0' as u32 + d,
        n > 0 ==> decimal(10 * n + d) == decimal(n) + decimal(d),
{
    if n > 0 {
        assert((10 * n + d) / 10 == n);
        assert((10 * n + d) % 10 == d);
        assert(decimal(10 * n + d) =~= decimal(n) + decimal(d));
    }
}

/// A hexadecimal digit in upper case stands for its number.
pub proof fn law_hex_digits(d: nat)
    requires
        d < 16,
    ensures
        d < 10 ==> hex_digit(d) as u32 == 48 + d,
        d >= 10 ==> hex_digit(d) as u32 == 65 + (d - 10),
{
}

/// The letters and digits of ASCII by their numbers.
pub proof fn law_ascii_letters_and_digits(c: char)
    ensures
        ascii_alphanumeric(c) <==> 48 <= c as u32 <= 57 || 65 <= c as u32 <= 90 || 97 <= c as u32
            <= 122,
{
}

/// A list of strings and the list of their texts go together, one by one.
pub proof fn law_texts_are_one_by_one(strings: Seq<String>, text: Option<String>)
    ensures
        texts(strings).len() == strings.len(),
        forall|i: int| 0 <= i < strings.len() ==> #[trigger] texts(strings)[i] == strings[i]@,
        text is Some ==> text_of(text) == Some(text->0@),
        text is None ==> text_of(text) is None,
{
}

} // verus!
