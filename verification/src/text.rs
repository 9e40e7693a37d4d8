//! Small string helpers with exact contracts over character sequences.

use vstd::prelude::*;
use vstd::string::*;

verus! {

/// The characters with the Unicode `White_Space` property.
pub open spec fn is_white_space(c: char) -> bool {
    let u = c as u32;
    ||| 0x09 <= u <= 0x0D
    ||| u == 0x20
    ||| u == 0x85
    ||| u == 0xA0
    ||| u == 0x1680
    ||| 0x2000 <= u <= 0x200A
    ||| u == 0x2028
    ||| u == 0x2029
    ||| u == 0x202F
    ||| u == 0x205F
    ||| u == 0x3000
}

/// `s` without its leading white space.
pub open spec fn trim_start(s: Seq<char>) -> Seq<char>
    decreases s.len(),
{
    if s.len() > 0 && is_white_space(s.first()) {
        trim_start(s.drop_first())
    } else {
        s
    }
}

/// `s` without its trailing white space.
pub open spec fn trim_end(s: Seq<char>) -> Seq<char>
    decreases s.len(),
{
    if s.len() > 0 && is_white_space(s.last()) {
        trim_end(s.drop_last())
    } else {
        s
    }
}

/// `s` without its leading and trailing white space.
pub open spec fn trimmed(s: Seq<char>) -> Seq<char> {
    trim_end(trim_start(s))
}

/// `str::trim` removes the leading and trailing characters that have the Unicode
/// `White_Space` property, and nothing else.
pub assume_specification[ str::trim ](s: &str) -> (r: &str)
    ensures
        r@ == trimmed(s@),
;

/// The text that `String::from_utf8_lossy` gives for a byte sequence.
pub uninterp spec fn lossy_text(bytes: Seq<u8>) -> Seq<char>;

/// `String::from_utf8_lossy`: valid UTF-8 is decoded as it stands. What stands in for an
/// invalid part is left to the name `lossy_text`.
#[verifier::external_body]
fn text_from_bytes(bytes: &[u8]) -> (s: String)
    ensures
        s@ == lossy_text(bytes@),
        vstd::utf8::valid_utf8(bytes@) ==> s@ == vstd::utf8::decode_utf8(bytes@),
{
    String::from_utf8_lossy(bytes).into_owned()
}

/// The text of bytes: they are decoded where they are valid UTF-8, else invalid parts are
/// replaced.
pub open spec fn text_of(bytes: Seq<u8>) -> Seq<char> {
    if vstd::utf8::valid_utf8(bytes) {
        vstd::utf8::decode_utf8(bytes)
    } else {
        lossy_text(bytes)
    }
}

/// Executable form of [`text_of`].
pub fn get_text(bytes: &[u8]) -> (s: String)
    ensures
        s@ == text_of(bytes@),
{
    text_from_bytes(bytes)
}

/// The bytes of a text are read as that text.
pub proof fn law_text_reads_back(s: Seq<char>)
    ensures
        text_of(vstd::utf8::encode_utf8(s)) == s,
{
    vstd::utf8::encode_utf8_valid_utf8(s);
    vstd::utf8::encode_utf8_decode_utf8(s);
}

/// `s` without its trailing NUL characters.
pub open spec fn without_trailing_nuls(s: Seq<char>) -> Seq<char>
    decreases s.len(),
{
    if s.len() > 0 && s.last() == '\0' {
        without_trailing_nuls(s.drop_last())
    } else {
        s
    }
}

/// Copy of `s` without its trailing NUL characters.
pub fn trim_trailing_nuls(s: &str) -> (r: String)
    ensures
        r@ == without_trailing_nuls(s@),
{
    let mut n: usize = s.unicode_len();
    assert(s@.take(n as int) =~= s@);
    while n > 0 && s.get_char(n - 1) == '\0'
        invariant
            n <= s@.len(),
            without_trailing_nuls(s@.take(n as int)) == without_trailing_nuls(s@),
        decreases n,
    {
        assert(s@.take(n as int).drop_last() =~= s@.take(n - 1));
        n = n - 1;
    }
    assert(s@.subrange(0, n as int) =~= s@.take(n as int));
    s.substring_char(0, n).to_string()
}

/// Whether two strings hold the same characters.
pub fn same_text(a: &str, b: &str) -> (r: bool)
    ensures
        r == (a@ == b@),
{
    let x: &[u8] = a.as_bytes();
    let y: &[u8] = b.as_bytes();
    proof {
        vstd::utf8::encode_utf8_decode_utf8(a@);
        vstd::utf8::encode_utf8_decode_utf8(b@);
    }
    if x.len() != y.len() {
        return false;
    }
    let mut i: usize = 0;
    while i < x.len()
        invariant
            i <= x@.len(),
            x@.len() == y@.len(),
            x@ == vstd::utf8::encode_utf8(a@),
            y@ == vstd::utf8::encode_utf8(b@),
            forall|j: int| 0 <= j < i ==> x@[j] == y@[j],
        decreases x@.len() - i,
    {
        if x[i] != y[i] {
            return false;
        }
        i = i + 1;
    }
    assert(x@ =~= y@);
    true
}

/// Whether a token's text marks it as special: it begins with `<|`.
pub open spec fn is_special(s: Seq<char>) -> bool {
    s.len() >= 2 && s[0] == '<' && s[1] == '|'
}

/// Executable form of [`is_special`].
pub fn is_special_text(s: &str) -> (r: bool)
    ensures
        r == is_special(s@),
{
    let mut it = s.chars();
    match it.next() {
        Some('<') => match it.next() {
            Some('|') => true,
            _ => false,
        },
        _ => false,
    }
}

/// Whether `s` begins with an ASCII space.
pub open spec fn begins_with_space(s: Seq<char>) -> bool {
    s.len() > 0 && s[0] == ' '
}

/// Executable form of [`begins_with_space`].
pub fn starts_with_space(s: &str) -> (r: bool)
    ensures
        r == begins_with_space(s@),
{
    let mut it = s.chars();
    match it.next() {
        Some(' ') => true,
        _ => false,
    }
}

/// The decimal digit `d` as a character.
pub open spec fn digit(d: int) -> char {
    (48 + d) as u32 as char
}

/// The decimal notation of a natural number.
pub open spec fn decimal_nat(n: nat) -> Seq<char>
    decreases n,
{
    if n < 10 {
        seq![digit(n as int)]
    } else {
        decimal_nat(n / 10).push(digit((n % 10) as int))
    }
}

/// The decimal notation of an integer.
pub open spec fn decimal(n: int) -> Seq<char> {
    if n < 0 {
        seq!['-'] + decimal_nat((-n) as nat)
    } else {
        decimal_nat(n as nat)
    }
}

/// The one-character string of the decimal digit `d`.
fn digit_text(d: u64) -> (s: &'static str)
    requires
        d < 10,
    ensures
        s@ == seq![digit(d as int)],
{
    proof {
        reveal_strlit("0");
        reveal_strlit("1");
        reveal_strlit("2");
        reveal_strlit("3");
        reveal_strlit("4");
        reveal_strlit("5");
        reveal_strlit("6");
        reveal_strlit("7");
        reveal_strlit("8");
        reveal_strlit("9");
    }
    let s: &'static str = match d {
        0 => "0",
        1 => "1",
        2 => "2",
        3 => "3",
        4 => "4",
        5 => "5",
        6 => "6",
        7 => "7",
        8 => "8",
        _ => "9",
    };
    assert(s@ =~= seq![digit(d as int)]);
    s
}

/// Appends the decimal notation of `n` to `out`.
pub fn append_decimal_nat(out: &mut String, n: u64)
    ensures
        final(out)@ == old(out)@ + decimal_nat(n as nat),
    decreases n,
{
    if n < 10 {
        out.append(digit_text(n));
    } else {
        append_decimal_nat(out, n / 10);
        out.append(digit_text(n % 10));
    }
    assert(out@ =~= old(out)@ + decimal_nat(n as nat));
}

/// Appends the decimal notation of `n` to `out`.
pub fn append_decimal(out: &mut String, n: i64)
    requires
        n != i64::MIN,
    ensures
        final(out)@ == old(out)@ + decimal(n as int),
{
    if n < 0 {
        proof {
            reveal_strlit("-");
        }
        out.append("-");
        append_decimal_nat(out, (-n) as u64);
        assert(out@ =~= old(out)@ + decimal(n as int));
    } else {
        append_decimal_nat(out, n as u64);
    }
}

/// The lower-case hexadecimal digit `d` as a character.
pub open spec fn hex_digit(d: int) -> char {
    (if d < 10 {
        48 + d
    } else {
        87 + d
    }) as u32 as char
}

/// A byte as two lower-case hexadecimal digits.
pub open spec fn hex_byte(b: u8) -> Seq<char> {
    seq![hex_digit(b as int / 16), hex_digit(b as int % 16)]
}

/// The one-character string of the hexadecimal digit `d`.
fn hex_digit_text(d: u8) -> (s: &'static str)
    requires
        d < 16,
    ensures
        s@ == seq![hex_digit(d as int)],
{
    proof {
        reveal_strlit("a");
        reveal_strlit("b");
        reveal_strlit("c");
        reveal_strlit("d");
        reveal_strlit("e");
        reveal_strlit("f");
    }
    if d < 10 {
        return digit_text(d as u64);
    }
    let s: &'static str = match d {
        10 => "a",
        11 => "b",
        12 => "c",
        13 => "d",
        14 => "e",
        _ => "f",
    };
    assert(s@ =~= seq![hex_digit(d as int)]);
    s
}

/// Appends the two hexadecimal digits of `b` to `out`.
pub fn append_hex_byte(out: &mut String, b: u8)
    ensures
        final(out)@ == old(out)@ + hex_byte(b),
{
    out.append(hex_digit_text(b / 16));
    out.append(hex_digit_text(b % 16));
    assert(out@ =~= old(out)@ + hex_byte(b));
}

/// What is trimmed begins and ends with a character that is not white space, and trimming it once
/// more changes nothing.
pub proof fn law_trimmed_is_trim(s: Seq<char>)
    ensures
        trimmed(trimmed(s)) == trimmed(s),
        trimmed(s).len() > 0 ==> !is_white_space(trimmed(s).first()) && !is_white_space(
            trimmed(s).last(),
        ),
{
    lemma_trim_start(s);
    lemma_trim_end(trim_start(s));
}

/// Where trimming the start stops.
proof fn lemma_trim_start(s: Seq<char>)
    ensures
        trim_start(s).len() > 0 ==> !is_white_space(trim_start(s).first()),
    decreases s.len(),
{
    if s.len() > 0 && is_white_space(s.first()) {
        lemma_trim_start(s.drop_first());
    }
}

/// Where trimming the end stops; what is left begins as before.
proof fn lemma_trim_end(s: Seq<char>)
    ensures
        trim_end(s).len() > 0 ==> !is_white_space(trim_end(s).last()) && trim_end(s).first()
            == s.first(),
    decreases s.len(),
{
    if s.len() > 0 && is_white_space(s.last()) {
        lemma_trim_end(s.drop_last());
    }
}

/// The number that decimal digits stand for.
pub open spec fn number_of(digits: Seq<char>) -> int
    decreases digits.len(),
{
    if digits.len() == 0 {
        0
    } else {
        10 * number_of(digits.drop_last()) + (digits.last() as int - '0' as int)
    }
}

/// Decimal notation reads back: it has a digit for every power of ten up to the number, all of them
/// from `0` to `9`, and they stand for the number. So different numbers have different notations.
pub proof fn law_decimal_reads_back(n: nat)
    ensures
        number_of(decimal_nat(n)) == n,
        decimal_nat(n).len() > 0,
        n > 0 ==> decimal_nat(n)[0] != '0',
        forall|i: int| 0 <= i < decimal_nat(n).len() ==> '0' <= #[trigger] decimal_nat(n)[i] <= '9',
    decreases n,
{
    let s = decimal_nat(n);
    if n >= 10 {
        law_decimal_reads_back(n / 10);
        assert(s.drop_last() =~= decimal_nat(n / 10));
    } else {
        assert(s.drop_last() =~= Seq::<char>::empty());
        assert(number_of(Seq::<char>::empty()) == 0);
    }
}

/// The two hexadecimal digits of a byte stand for it.
pub proof fn law_hex_reads_back(b: u8)
    ensures
        hex_byte(b).len() == 2,
        forall|i: int|
            0 <= i < 2 ==> ('0' <= #[trigger] hex_byte(b)[i] <= '9' || 'a' <= hex_byte(b)[i]
                <= 'f'),
        b == 16 * digit_value(hex_byte(b)[0]) + digit_value(hex_byte(b)[1]),
{
}

/// What a hexadecimal digit stands for.
pub open spec fn digit_value(c: char) -> int {
    if c <= '9' {
        c as int - '0' as int
    } else {
        c as int - 'a' as int + 10
    }
}

/// Trimming takes away white space at both ends and nothing else: what is left stands in the text with
/// nothing but white space before and behind it.
pub proof fn law_trimming_takes_only_white_space(s: Seq<char>)
    ensures
        exists|a: int, b: int|
            0 <= a <= b <= s.len() && #[trigger] s.subrange(a, b) == trimmed(s) && (forall|i: int|
                0 <= i < a || b <= i < s.len() ==> is_white_space(#[trigger] s[i])),
{
    lemma_start_taken(s);
    let a = choose|a: int|
        0 <= a <= s.len() && #[trigger] s.skip(a) == trim_start(s) && forall|i: int|
            0 <= i < a ==> is_white_space(#[trigger] s[i]);
    let rest = trim_start(s);
    lemma_end_taken(rest);
    let n = choose|n: int|
        0 <= n <= rest.len() && #[trigger] rest.take(n) == trim_end(rest) && forall|i: int|
            n <= i < rest.len() ==> is_white_space(#[trigger] rest[i]);
    assert(s.subrange(a, a + n) =~= rest.take(n));
    assert forall|i: int| 0 <= i < a || a + n <= i < s.len() implies is_white_space(
        #[trigger] s[i],
    ) by {
        if i >= a + n {
            assert(rest[i - a] == s[i]);
        }
    }
}

/// What trimming the start takes away.
proof fn lemma_start_taken(s: Seq<char>)
    ensures
        exists|a: int|
            0 <= a <= s.len() && #[trigger] s.skip(a) == trim_start(s) && forall|i: int|
                0 <= i < a ==> is_white_space(#[trigger] s[i]),
    decreases s.len(),
{
    if s.len() > 0 && is_white_space(s.first()) {
        let rest = s.drop_first();
        lemma_start_taken(rest);
        let a = choose|a: int|
            0 <= a <= rest.len() && #[trigger] rest.skip(a) == trim_start(rest) && forall|i: int|
                0 <= i < a ==> is_white_space(#[trigger] rest[i]);
        assert(s.skip(a + 1) =~= rest.skip(a));
        assert forall|i: int| 0 <= i < a + 1 implies is_white_space(#[trigger] s[i]) by {
            if i > 0 {
                assert(rest[i - 1] == s[i]);
            }
        }
    } else {
        assert(s.skip(0) =~= s);
    }
}

/// What trimming the end takes away.
proof fn lemma_end_taken(s: Seq<char>)
    ensures
        exists|n: int|
            0 <= n <= s.len() && #[trigger] s.take(n) == trim_end(s) && forall|i: int|
                n <= i < s.len() ==> is_white_space(#[trigger] s[i]),
    decreases s.len(),
{
    if s.len() > 0 && is_white_space(s.last()) {
        let rest = s.drop_last();
        lemma_end_taken(rest);
        let n = choose|n: int|
            0 <= n <= rest.len() && #[trigger] rest.take(n) == trim_end(rest) && forall|i: int|
                n <= i < rest.len() ==> is_white_space(#[trigger] rest[i]);
        assert(s.take(n) =~= rest.take(n));
        assert forall|i: int| n <= i < s.len() implies is_white_space(#[trigger] s[i]) by {
            if i < rest.len() {
                assert(rest[i] == s[i]);
            }
        }
    } else {
        assert(s.take(s.len() as int) =~= s);
    }
}

/// Taking away trailing NUL characters takes away all of them and nothing else.
pub proof fn law_trailing_nuls_are_taken_away(s: Seq<char>, n: nat)
    requires
        s.len() > 0 ==> s.last() != '\0',
    ensures
        without_trailing_nuls(s + Seq::new(n, |i: int| '\0')) == s,
    decreases n,
{
    let all = s + Seq::new(n, |i: int| '\0');
    if n > 0 {
        law_trailing_nuls_are_taken_away(s, (n - 1) as nat);
        assert(all.last() == '\0');
        assert(all.drop_last() =~= s + Seq::new((n - 1) as nat, |i: int| '\0'));
    } else {
        assert(all =~= s);
    }
}

} // verus!
