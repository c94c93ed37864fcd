//! Text formats: numbers, file name components and lossy names.

use vstd::prelude::*;
use vstd::utf8;

verus! {

/// `String::push` of the standard library appends the character.
pub assume_specification[ String::push ](string: &mut String, ch: char)
    ensures
        final(string)@ == old(string)@.push(ch),
;

/// What `String::from_utf8_lossy` of the standard library makes of bytes.
pub uninterp spec fn utf8_lossy(bytes: Seq<u8>) -> Seq<char>;

/// Decodes bytes with `String::from_utf8_lossy`, which keeps what is UTF-8.
/// What it puts in place of other bytes is not stated.
#[verifier::external_body]
pub(crate) fn from_utf8_lossy(bytes: &[u8]) -> (text: String)
    ensures
        text@ == utf8_lossy(bytes@),
        utf8::valid_utf8(bytes@) ==> text@ == utf8::decode_utf8(bytes@),
{
    String::from_utf8_lossy(bytes).into_owned()
}

/// The text that bytes stand for: what they encode, or else what
/// `String::from_utf8_lossy` makes of them.
pub open spec fn lossy_text(bytes: Seq<u8>) -> Seq<char> {
    if utf8::valid_utf8(bytes) {
        utf8::decode_utf8(bytes)
    } else {
        utf8_lossy(bytes)
    }
}

/// The bytes of a text stand for that text.
pub proof fn law_encoded_text_is_kept(chars: Seq<char>)
    ensures
        lossy_text(utf8::encode_utf8(chars)) == chars,
{
    utf8::encode_utf8_valid_utf8(chars);
    utf8::encode_utf8_decode_utf8(chars);
}

/// The digit for a value below sixteen, in lower case.
pub open spec fn digit(value: nat) -> char {
    if value < 10 {
        (48 + value) as char
    } else {
        (87 + value) as char
    }
}

/// A number in base ten.
pub open spec fn decimal(value: nat) -> Seq<char>
    decreases value,
{
    if value < 10 {
        seq![digit(value)]
    } else {
        decimal(value / 10).push(digit(value % 10))
    }
}

/// `count` zero digits.
pub open spec fn zero_digits(count: nat) -> Seq<char> {
    Seq::new(count, |i: int| '0')
}

/// A number in base ten, filled up with zero digits to four places.
pub open spec fn decimal4(value: nat) -> Seq<char> {
    zero_digits(
        if decimal(value).len() < 4 {
            (4 - decimal(value).len()) as nat
        } else {
            0
        },
    ) + decimal(value)
}

/// The low `places` digits of a number in base sixteen.
pub open spec fn hex(value: nat, places: nat) -> Seq<char>
    decreases places,
{
    if places == 0 {
        Seq::empty()
    } else {
        hex(value / 16, (places - 1) as nat).push(digit(value % 16))
    }
}

/// Whether a character is kept in a file name.
pub open spec fn is_plain(ch: char) -> bool {
    ||| '0' <= ch <= '9'
    ||| 'A' <= ch <= 'Z'
    ||| 'a' <= ch <= 'z'
    ||| ch == '_'
    ||| ch == '-'
}

/// The characters of a file name component: plain ones are kept, others give
/// way to underscores, and nothing becomes `unknown`.
pub open spec fn sanitized(value: Seq<char>) -> Seq<char> {
    if value.len() == 0 {
        "unknown"@
    } else {
        value.map_values(
            |ch: char|
                if is_plain(ch) {
                    ch
                } else {
                    '_'
                },
        )
    }
}

/// A sanitized component has at least one character, all of them plain, and
/// is not changed by another pass.
pub proof fn law_sanitized_is_plain(value: Seq<char>)
    ensures
        sanitized(value).len() > 0,
        forall|i: int| 0 <= i < sanitized(value).len() ==> is_plain(#[trigger] sanitized(value)[i]),
        sanitized(sanitized(value)) == sanitized(value),
{
    reveal_strlit("unknown");
    assert(sanitized(sanitized(value)) =~= sanitized(value));
}

/// Bytes that are UTF-8 stand for the text that they encode, all of it.
pub proof fn law_valid_bytes_are_kept(bytes: Seq<u8>)
    requires
        utf8::valid_utf8(bytes),
    ensures
        utf8::encode_utf8(lossy_text(bytes)) == bytes,
{
    utf8::decode_utf8_encode_utf8(bytes);
}

/// The value of a digit of base ten or sixteen, in lower case.
pub open spec fn digit_value(ch: char) -> int {
    if '0' <= ch <= '9' {
        ch as int - 0x30
    } else {
        ch as int - 0x61 + 10
    }
}

/// The ten digits of base ten count from zero, and the six letters behind them
/// go on from ten; each stands for its value.
pub proof fn law_digits_stand_for_their_values(value: nat, ch: char)
    ensures
        '0' <= ch <= '9' ==> digit_value(ch) == ch as int - '0' as int,
        'a' <= ch <= 'f' ==> digit_value(ch) == 10 + ch as int - 'a' as int,
        value < 10 ==> '0' <= digit(value) <= '9' && digit_value(digit(value)) == value,
        10 <= value < 16 ==> 'a' <= digit(value) <= 'f' && digit_value(digit(value)) == value,
{
}

/// The number that digits of a base stand for, the first one as the highest.
pub open spec fn number_value(digits: Seq<char>, base: int) -> int
    decreases digits.len(),
{
    if digits.len() == 0 {
        0
    } else {
        base * number_value(digits.drop_last(), base) + digit_value(digits.last())
    }
}

/// A number in base ten is read back, from digits alone and from no more of
/// them than it needs.
pub proof fn law_decimal_read_back(value: nat)
    ensures
        number_value(decimal(value), 10) == value,
        decimal(value).len() > 0,
        forall|i: int| 0 <= i < decimal(value).len() ==> '0' <= #[trigger] decimal(value)[i] <= '9',
        value > 0 ==> decimal(value)[0] != '0',
        value == 0 ==> decimal(value).len() == 1,
    decreases value,
{
    reveal_with_fuel(number_value, 2);
    if value >= 10 {
        law_decimal_read_back(value / 10);
        assert(decimal(value).drop_last() =~= decimal(value / 10));
    }
}

/// A number that is filled up with zero digits is read back, and has four
/// digits where it needs no more.
pub proof fn law_decimal4_read_back(value: nat)
    ensures
        number_value(decimal4(value), 10) == value,
        decimal4(value).len() >= 4,
        forall|i: int|
            0 <= i < decimal4(value).len() ==> '0' <= #[trigger] decimal4(value)[i] <= '9',
        decimal4(value).len() > 4 ==> decimal4(value)[0] != '0',
{
    law_decimal_read_back(value);
    let digits = decimal(value);
    let zeros = (decimal4(value).len() - digits.len()) as nat;
    lemma_leading_zeros(zeros, digits, 10);
    if decimal4(value).len() > 4 {
        assert(decimal4(value) =~= digits);
    }
}

/// Zero digits before a number do not change it.
proof fn lemma_leading_zeros(count: nat, digits: Seq<char>, base: int)
    ensures
        number_value(zero_digits(count) + digits, base) == number_value(digits, base),
    decreases count + digits.len(),
{
    let all = zero_digits(count) + digits;
    if digits.len() > 0 {
        assert(all.drop_last() =~= zero_digits(count) + digits.drop_last());
        lemma_leading_zeros(count, digits.drop_last(), base);
    } else if count > 0 {
        let fewer = (count - 1) as nat;
        assert(all.drop_last() =~= zero_digits(fewer) + digits);
        lemma_leading_zeros(fewer, digits, base);
        assert(base * 0 == 0) by (nonlinear_arith);
    } else {
        assert(all =~= digits);
    }
}

/// A number in base sixteen is read back where the places are enough for it,
/// and has a digit, in lower case, for each of them.
pub proof fn law_hex_read_back(value: nat, places: nat)
    ensures
        hex(value, places).len() == places,
        forall|i: int|
            0 <= i < places ==> '0' <= #[trigger] hex(value, places)[i] <= '9' || 'a' <= hex(
                value,
                places,
            )[i] <= 'f',
        value < vstd::arithmetic::power::pow(16, places) ==> number_value(hex(value, places), 16)
            == value,
    decreases places,
{
    reveal(vstd::arithmetic::power::pow);
    if places > 0 {
        let fewer = (places - 1) as nat;
        law_hex_read_back(value / 16, fewer);
        assert(hex(value, places).drop_last() =~= hex(value / 16, fewer));
    }
}

/// Each character of a name stands in the file name component at its place, if
/// it is a letter or a digit of ASCII, an underscore or a hyphen; else an
/// underscore stands there. A name without characters becomes `unknown`.
pub proof fn law_sanitized_keeps_plain(value: Seq<char>)
    ensures
        value.len() > 0 ==> sanitized(value).len() == value.len(),
        forall|i: int|
            0 <= i < value.len() ==> #[trigger] sanitized(value)[i] == (if 'a' <= value[i] <= 'z'
                || 'A' <= value[i] <= 'Z' || '0' <= value[i] <= '9' || value[i] == '-' {
                value[i]
            } else {
                '_'
            }),
        value.len() == 0 ==> sanitized(value) == seq!['u', 'n', 'k', 'n', 'o', 'w', 'n'],
{
    reveal_strlit("unknown");
    if value.len() == 0 {
        assert(sanitized(value) =~= seq!['u', 'n', 'k', 'n', 'o', 'w', 'n']);
    }
}

/// A digit of base ten or sixteen.
fn digit_char(value: u8) -> (ch: char)
    requires
        value < 16,
    ensures
        ch == digit(value as nat),
{
    if value < 10 {
        (48 + value) as char
    } else {
        (87 + value) as char
    }
}

/// Appends a number in base ten.
pub fn push_decimal(text: &mut String, value: u64)
    ensures
        final(text)@ == old(text)@ + decimal(value as nat),
    decreases value,
{
    let ghost before = text@;
    if value >= 10 {
        push_decimal(text, value / 10);
    }
    text.push(digit_char((value % 10) as u8));
    assert(text@ =~= before + decimal(value as nat));
}

/// Appends a number in base ten, filled up with zero digits to four places.
pub fn push_decimal4(text: &mut String, value: u64)
    ensures
        final(text)@ == old(text)@ + decimal4(value as nat),
{
    let ghost before = text@;
    if value < 1000 {
        text.push('0');
    }
    if value < 100 {
        text.push('0');
    }
    if value < 10 {
        text.push('0');
    }
    push_decimal(text, value);
    proof {
        reveal_with_fuel(decimal, 5);
        let places = decimal(value as nat).len();
        assert(places == 1 <==> value < 10);
        assert(places == 2 <==> 10 <= value < 100);
        assert(places == 3 <==> 100 <= value < 1000);
        assert(text@ =~= before + decimal4(value as nat));
    }
}

/// Appends the low `places` digits of a number in base sixteen.
pub fn push_hex(text: &mut String, value: u32, places: u8)
    ensures
        final(text)@ == old(text)@ + hex(value as nat, places as nat),
    decreases places,
{
    let ghost before = text@;
    if places > 0 {
        push_hex(text, value / 16, places - 1);
        text.push(digit_char((value % 16) as u8));
    }
    assert(text@ =~= before + hex(value as nat, places as nat));
}

/// Turns a name into a component of a file name.
pub fn sanitize_component(value: &str) -> (component: String)
    ensures
        component@ == sanitized(value@),
{
    let mut component = String::new();
    let ghost keep = |ch: char|
        if is_plain(ch) {
            ch
        } else {
            '_'
        };
    for ch in it: value.chars()
        invariant
            it.seq() == value@,
            component@ == value@.take(it.index()).map_values(keep),
            keep == (|ch: char|
                if is_plain(ch) {
                    ch
                } else {
                    '_'
                }),
    {
        let ghost before = component@;
        if (ch >= '0' && ch <= '9') || (ch >= 'A' && ch <= 'Z') || (ch >= 'a' && ch <= 'z') || ch
            == '_' || ch == '-' {
            component.push(ch);
        } else {
            component.push('_');
        }
        assert(component@ =~= value@.take(it.index() + 1).map_values(keep));
    }
    assert(value@.take(value@.len() as int) =~= value@);
    if component.as_str().is_empty() {
        component.append("unknown");
        assert(component@ =~= "unknown"@);
    }
    component
}

/// A name becomes a component of a file name in which its letters, digits,
/// underscores and hyphens stand where they stood, and underscores elsewhere.
pub proof fn law_component_keeps_plain(value: &str, component: String)
    requires
        call_ensures(sanitize_component, (value,), component),
    ensures
        value@.len() == 0 ==> component@ == seq!['u', 'n', 'k', 'n', 'o', 'w', 'n'],
        value@.len() > 0 ==> component@.len() == value@.len(),
        forall|i: int|
            0 <= i < value@.len() ==> #[trigger] component@[i] == (if 'a' <= value@[i] <= 'z'
                || 'A' <= value@[i] <= 'Z' || '0' <= value@[i] <= '9' || value@[i] == '-' {
                value@[i]
            } else {
                '_'
            }),
{
    law_sanitized_keeps_plain(value@);
    assert forall|i: int| 0 <= i < value@.len() implies #[trigger] component@[i] == (if 'a'
        <= value@[i] <= 'z' || 'A' <= value@[i] <= 'Z' || '0' <= value@[i] <= '9' || value@[i]
        == '-' {
        value@[i]
    } else {
        '_'
    }) by {
        assert(component@[i] == sanitized(value@)[i]);
    }
}

} // verus!
