//! Text in arguments and replies: decimal and hexadecimal numbers, keywords,
//! UTF-8.

use vstd::prelude::*;
use vstd::string::*;
use vstd::utf8;

verus! {

/// `b` is a decimal digit.
pub open spec fn is_digit(b: u8) -> bool {
    48 <= b && b <= 57
}

/// All bytes are decimal digits.
pub open spec fn all_digits(s: Seq<u8>) -> bool {
    forall|i: int| 0 <= i < s.len() ==> is_digit(#[trigger] s[i])
}

/// The number that decimal digits write.
pub open spec fn dec_value(s: Seq<u8>) -> nat
    decreases s.len(),
{
    if s.len() == 0 {
        0
    } else {
        10 * dec_value(s.drop_last()) + (s.last() - 48) as nat
    }
}

/// The number in a decimal text: digits, with a plus sign or without.
pub open spec fn unsigned_in(s: Seq<u8>) -> Option<nat> {
    let d = if s.len() > 0 && s[0] == 43 {
        s.skip(1)
    } else {
        s
    };
    if d.len() > 0 && all_digits(d) {
        Some(dec_value(d))
    } else {
        None
    }
}

/// The number in a decimal text that may have a sign.
pub open spec fn signed_in(s: Seq<u8>) -> Option<int> {
    if s.len() > 0 && s[0] == 45 {
        let d = s.skip(1);
        if d.len() > 0 && all_digits(d) {
            Some(-(dec_value(d) as int))
        } else {
            None
        }
    } else {
        match unsigned_in(s) {
            Some(n) => Some(n as int),
            None => None,
        }
    }
}

/// The number in a decimal text, if it is at most `max`.
pub open spec fn unsigned_upto(s: Seq<u8>, max: int) -> Option<nat> {
    match unsigned_in(s) {
        Some(n) => if n <= max {
            Some(n)
        } else {
            None
        },
        None => None,
    }
}

/// The 64-bit number in a decimal text.
pub open spec fn u64_in(s: Seq<u8>) -> Option<u64> {
    match unsigned_upto(s, u64::MAX as int) {
        Some(n) => Some(n as u64),
        None => None,
    }
}

/// The machine-size number in a decimal text.
pub open spec fn usize_in(s: Seq<u8>) -> Option<usize> {
    match unsigned_upto(s, usize::MAX as int) {
        Some(n) => Some(n as usize),
        None => None,
    }
}

/// The signed 64-bit number in a decimal text.
pub open spec fn i64_in(s: Seq<u8>) -> Option<i64> {
    match signed_in(s) {
        Some(n) => if i64::MIN <= n <= i64::MAX {
            Some(n as i64)
        } else {
            None
        },
        None => None,
    }
}

/// The decimal digits of a number.
pub open spec fn dec(n: nat) -> Seq<u8>
    decreases n,
{
    if n < 10 {
        seq![(48 + n) as u8]
    } else {
        dec(n / 10).push((48 + n % 10) as u8)
    }
}

/// The decimal text of a signed number.
pub open spec fn dec_signed(n: int) -> Seq<u8> {
    if n < 0 {
        seq![45u8] + dec((-n) as nat)
    } else {
        dec(n as nat)
    }
}

/// The characters of an ASCII byte string.
pub open spec fn chars_of(s: Seq<u8>) -> Seq<char> {
    Seq::new(s.len(), |i: int| s[i] as char)
}

proof fn lemma_dec_value_grows(s: Seq<u8>, i: int)
    requires
        0 <= i <= s.len(),
        all_digits(s),
    ensures
        dec_value(s.take(i)) <= dec_value(s),
    decreases s.len() - i,
{
    if i == s.len() {
        assert(s.take(i) =~= s);
    } else {
        lemma_dec_value_grows(s, i + 1);
        assert(s.take(i + 1).drop_last() =~= s.take(i));
    }
}

pub proof fn lemma_dec(n: nat)
    ensures
        dec(n).len() > 0,
        all_digits(dec(n)),
        dec_value(dec(n)) == n,
    decreases n,
{
    if n < 10 {
        let s = dec(n);
        assert(s.drop_last() =~= Seq::<u8>::empty());
        assert(dec_value(s.drop_last()) == 0);
    } else {
        lemma_dec(n / 10);
        assert(dec(n).drop_last() =~= dec(n / 10));
    }
}

/// Reading a written number gives the number back.
pub proof fn law_decimal_round_trip(n: nat, i: int)
    ensures
        unsigned_in(dec(n)) == Some(n),
        signed_in(dec_signed(i)) == Some(i),
{
    lemma_dec(n);
    assert(is_digit(dec(n)[0]));
    if i < 0 {
        lemma_dec((-i) as nat);
        assert(dec_signed(i).skip(1) =~= dec((-i) as nat));
    } else {
        lemma_dec(i as nat);
        assert(is_digit(dec(i as nat)[0]));
    }
}

fn parse_digits(s: &[u8], from: usize, max: u64) -> (r: Option<u64>)
    requires
        from <= s@.len(),
    ensures
        match r {
            Some(n) => from < s@.len() && all_digits(s@.skip(from as int)) && n == dec_value(
                s@.skip(from as int),
            ) && n <= max,
            None => !(from < s@.len() && all_digits(s@.skip(from as int)) && dec_value(
                s@.skip(from as int),
            ) <= max),
        },
{
    if from == s.len() {
        return None;
    }
    let ghost d = s@.skip(from as int);
    let mut n: u64 = 0;
    let mut i: usize = from;
    proof {
        assert(d.take(0) =~= Seq::<u8>::empty());
    }
    while i < s.len()
        invariant
            from <= i <= s@.len(),
            from < s@.len(),
            d == s@.skip(from as int),
            forall|j: int| 0 <= j < i - from ==> is_digit(#[trigger] d[j]),
            n == dec_value(d.take(i - from)),
            n <= max,
        decreases s.len() - i,
    {
        let b: u8 = s[i];
        proof {
            assert(d[i - from] == b);
        }
        if b < 48 || b > 57 {
            proof {
                assert(!is_digit(d[i - from]));
            }
            return None;
        }
        let v: u64 = (b - 48) as u64;
        proof {
            assert(d.take(i + 1 - from).drop_last() =~= d.take(i - from));
            assert(d.take(i + 1 - from).last() == b);
        }
        if v > max || n > (max - v) / 10 {
            proof {
                assert(10 * n + v > max);
                if all_digits(d) {
                    lemma_dec_value_grows(d, i + 1 - from);
                }
            }
            return None;
        }
        n = n * 10 + v;
        i = i + 1;
    }
    proof {
        assert(d.take(i - from) =~= d);
    }
    Some(n)
}

fn parse_upto(s: &[u8], max: u64) -> (r: Option<u64>)
    ensures
        match r {
            Some(n) => unsigned_upto(s@, max as int) == Some(n as nat),
            None => unsigned_upto(s@, max as int) is None,
        },
{
    proof {
        assert(s@.skip(0) =~= s@);
    }
    if s.len() > 0 && s[0] == 43 {
        parse_digits(s, 1, max)
    } else {
        parse_digits(s, 0, max)
    }
}

/// Reads a 64-bit number.
pub fn parse_u64(s: &[u8]) -> (r: Option<u64>)
    ensures
        r == u64_in(s@),
{
    parse_upto(s, u64::MAX)
}

/// Reads a machine-size number.
pub fn parse_usize(s: &[u8]) -> (r: Option<usize>)
    ensures
        r == usize_in(s@),
{
    match parse_upto(s, usize::MAX as u64) {
        Some(n) => Some(n as usize),
        None => None,
    }
}

/// Reads a signed 64-bit number.
pub fn parse_i64(s: &[u8]) -> (r: Option<i64>)
    ensures
        r == i64_in(s@),
{
    if s.len() > 0 && s[0] == 45 {
        match parse_digits(s, 1, 0x8000_0000_0000_0000) {
            Some(n) => if n == 0x8000_0000_0000_0000 {
                Some(i64::MIN)
            } else {
                Some(-(n as i64))
            },
            None => None,
        }
    } else {
        match parse_upto(s, i64::MAX as u64) {
            Some(n) => Some(n as i64),
            None => None,
        }
    }
}

/// Appends the decimal digits of a number.
pub fn push_dec(buf: &mut Vec<u8>, n: u64)
    ensures
        final(buf)@ == old(buf)@ + dec(n as nat),
    decreases n,
{
    if n >= 10 {
        push_dec(buf, n / 10);
    }
    let ghost mid = buf@;
    buf.push((48 + n % 10) as u8);
    proof {
        assert(buf@ =~= old(buf)@ + dec(n as nat));
    }
}

/// Appends the decimal text of a signed number.
pub fn push_dec_signed(buf: &mut Vec<u8>, n: i64)
    ensures
        final(buf)@ == old(buf)@ + dec_signed(n as int),
{
    if n < 0 {
        buf.push(45);
        let m: i64 = -(n + 1);
        push_dec(buf, m as u64 + 1);
        proof {
            assert(buf@ =~= old(buf)@ + dec_signed(n as int));
        }
    } else {
        push_dec(buf, n as u64);
    }
}

/// The decimal text of a signed number.
pub fn signed_text(n: i64) -> (v: Vec<u8>)
    ensures
        v@ == dec_signed(n as int),
{
    let mut v: Vec<u8> = Vec::new();
    push_dec_signed(&mut v, n);
    proof {
        assert(v@ =~= dec_signed(n as int));
    }
    v
}

fn digit_text(d: u64) -> (s: &'static str)
    requires
        d < 10,
    ensures
        s@ == seq![(48 + d) as char],
{
    proof {
        reveal_strlit("0");
        reveal_strlit("1");
        reveal_strlit("2");
        reveal_strlit("3");
        reveal_strlit("4");
        reveal_strlit("5");
        reveal_strlit("6");
        reveal_strlit("7");
        reveal_strlit("8");
        reveal_strlit("9");
    }
    let s = if d == 0 {
        "0"
    } else if d == 1 {
        "1"
    } else if d == 2 {
        "2"
    } else if d == 3 {
        "3"
    } else if d == 4 {
        "4"
    } else if d == 5 {
        "5"
    } else if d == 6 {
        "6"
    } else if d == 7 {
        "7"
    } else if d == 8 {
        "8"
    } else {
        "9"
    };
    proof {
        assert(s@ =~= seq![(48 + d) as char]);
    }
    s
}

/// Appends the decimal digits of a number to a string.
pub fn append_dec(buf: &mut String, n: u64)
    ensures
        final(buf)@ == old(buf)@ + chars_of(dec(n as nat)),
    decreases n,
{
    if n >= 10 {
        append_dec(buf, n / 10);
    }
    buf.append(digit_text(n % 10));
    proof {
        assert(buf@ =~= old(buf)@ + chars_of(dec(n as nat)));
    }
}

/// Appends the decimal text of a signed number.
pub fn append_signed(buf: &mut String, n: i64)
    ensures
        final(buf)@ == old(buf)@ + chars_of(dec_signed(n as int)),
{
    if n < 0 {
        buf.append("-");
        let m: i64 = -(n + 1);
        append_dec(buf, m as u64 + 1);
        proof {
            reveal_strlit("-");
            assert(buf@ =~= old(buf)@ + chars_of(dec_signed(n as int)));
        }
    } else {
        append_dec(buf, n as u64);
    }
}

/// Appends the decimal text of a wide number.
pub fn append_wide(buf: &mut String, n: u128)
    ensures
        final(buf)@ == old(buf)@ + chars_of(dec(n as nat)),
    decreases n,
{
    if n >= 10 {
        append_wide(buf, n / 10);
    }
    buf.append(digit_text((n % 10) as u64));
    proof {
        assert(buf@ =~= old(buf)@ + chars_of(dec(n as nat)));
    }
}

/// An ASCII letter in upper case; any other byte as it is.
pub open spec fn upper(b: u8) -> u8 {
    if 97 <= b && b <= 122 {
        (b - 32) as u8
    } else {
        b
    }
}

/// An ASCII letter in upper case; any other character as it is.
pub open spec fn upper_char(c: char) -> char {
    if 'a' <= c && c <= 'z' {
        (c as u32 - 32) as char
    } else {
        c
    }
}

/// A text with its ASCII letters in upper case.
pub open spec fn upper_chars(s: Seq<char>) -> Seq<char> {
    Seq::new(s.len(), |i: int| upper_char(s[i]))
}

/// `a` is the keyword `w`, whatever the case of its letters. Keywords are
/// written in capital ASCII letters.
pub open spec fn is_word(a: Seq<u8>, w: Seq<char>) -> bool {
    a.len() == w.len() && forall|i: int|
        0 <= i < a.len() ==> upper(#[trigger] a[i]) as int == w[i] as int
}

/// Whether `a` is the keyword `w`.
pub fn matches_word(a: &[u8], w: &str) -> (r: bool)
    ensures
        r == is_word(a@, w@),
{
    let n: usize = w.unicode_len();
    if a.len() != n {
        return false;
    }
    let mut i: usize = 0;
    while i < n
        invariant
            i <= n,
            n == a@.len(),
            n == w@.len(),
            forall|j: int| 0 <= j < i ==> upper(#[trigger] a@[j]) as int == w@[j] as int,
        decreases n - i,
    {
        let b: u8 = a[i];
        let u: u8 = if 97 <= b && b <= 122 {
            b - 32
        } else {
            b
        };
        let c = w.get_char(i);
        if u as u32 != c as u32 {
            proof {
                assert(upper(a@[i as int]) as int != w@[i as int] as int);
            }
            return false;
        }
        i = i + 1;
    }
    true
}

/// What `String::from_utf8_lossy` makes of a byte string that is not UTF-8.
pub uninterp spec fn lossy_text(s: Seq<u8>) -> Seq<char>;

/// The text of a byte string: decoded if it is UTF-8, with replacement
/// characters otherwise.
pub open spec fn text_in(s: Seq<u8>) -> Seq<char> {
    if utf8::valid_utf8(s) {
        utf8::decode_utf8(s)
    } else {
        lossy_text(s)
    }
}

/// Decodes UTF-8 with `String::from_utf8_lossy`: valid UTF-8 as it is, and
/// with replacement characters for what is not. Where they stand is not
/// stated.
#[verifier::external_body]
pub(crate) fn lossy(s: &[u8]) -> (t: String)
    ensures
        t@ == (if utf8::valid_utf8(s@) {
            utf8::decode_utf8(s@)
        } else {
            lossy_text(s@)
        }),
{
    String::from_utf8_lossy(s).into_owned()
}

/// Whether `std::str::from_utf8` accepts a byte string: whether it is valid
/// UTF-8.
#[verifier::external_body]
pub(crate) fn is_utf8(s: &[u8]) -> (r: bool)
    ensures
        r == utf8::valid_utf8(s@),
{
    std::str::from_utf8(s).is_ok()
}

/// Bytes with their ASCII letters in upper case.
pub open spec fn upper_bytes(s: Seq<u8>) -> Seq<u8> {
    Seq::new(s.len(), |i: int| upper(s[i]))
}

proof fn lemma_upper_scalar(c: char)
    ensures
        utf8::encode_scalar(upper_char(c) as u32) == upper_bytes(utf8::encode_scalar(c as u32)),
{
    let x = c as u32;
    utf8::char_is_scalar(c);
    assert(x <= 0x7F ==> (x & 0x7F) as u8 == x) by (bit_vector);
    let y = upper_char(c) as u32;
    assert(y <= 0x7F ==> (y & 0x7F) as u8 == y) by (bit_vector);
    assert(forall|b: u8| #[trigger] (0xC0u8 | b) >= 0x80) by (bit_vector);
    assert(forall|b: u8| #[trigger] (0xE0u8 | b) >= 0x80) by (bit_vector);
    assert(forall|b: u8| #[trigger] (0xF0u8 | b) >= 0x80) by (bit_vector);
    assert(forall|b: u8| #[trigger] (0x80u8 | b) >= 0x80) by (bit_vector);
    assert(utf8::encode_scalar(y) =~= upper_bytes(utf8::encode_scalar(x)));
}

proof fn lemma_upper_encoded(s: Seq<char>)
    ensures
        utf8::encode_utf8(upper_chars(s)) == upper_bytes(utf8::encode_utf8(s)),
    decreases s.len(),
{
    if s.len() == 0 {
        assert(upper_bytes(utf8::encode_utf8(s)) =~= Seq::<u8>::empty());
    } else {
        lemma_upper_scalar(s[0]);
        lemma_upper_encoded(s.drop_first());
        assert(upper_chars(s).drop_first() =~= upper_chars(s.drop_first()));
        let head = utf8::encode_scalar(s[0] as u32);
        let tail = utf8::encode_utf8(s.drop_first());
        assert(upper_bytes(head + tail) =~= upper_bytes(head) + upper_bytes(tail));
    }
}

/// A text with its ASCII letters in upper case.
pub fn uppercase(s: &str) -> (t: String)
    ensures
        t@ == upper_chars(s@),
{
    let mut v = bytes_of(s);
    let ghost whole = v@;
    let n: usize = v.len();
    let mut i: usize = 0;
    while i < n
        invariant
            i <= n,
            n == whole.len(),
            v@.len() == n,
            forall|j: int| 0 <= j < i ==> #[trigger] v@[j] == upper(whole[j]),
            forall|j: int| i <= j < n ==> #[trigger] v@[j] == whole[j],
        decreases n - i,
    {
        let b: u8 = v[i];
        if 97 <= b && b <= 122 {
            v.set(i, b - 32);
        }
        i = i + 1;
    }
    proof {
        assert(v@ =~= upper_bytes(whole));
        lemma_upper_encoded(s@);
        utf8::encode_utf8_valid_utf8(upper_chars(s@));
        utf8::encode_utf8_decode_utf8(upper_chars(s@));
    }
    lossy(&v)
}

/// The bytes of a text in UTF-8.
pub fn bytes_of(s: &str) -> (v: Vec<u8>)
    ensures
        v@ == utf8::encode_utf8(s@),
{
    s.as_bytes_vec()
}

/// The value of a hexadecimal digit.
pub open spec fn hex_value(b: u8) -> Option<u8> {
    if 48 <= b && b <= 57 {
        Some((b - 48) as u8)
    } else if 97 <= b && b <= 102 {
        Some((b - 87) as u8)
    } else if 65 <= b && b <= 70 {
        Some((b - 55) as u8)
    } else {
        None
    }
}

/// The lower-case hexadecimal digit of a value below 16.
pub open spec fn hex_digit(v: int) -> u8 {
    if v < 10 {
        (48 + v) as u8
    } else {
        (87 + v) as u8
    }
}

/// Two lower-case hexadecimal digits for every byte.
pub open spec fn hex(s: Seq<u8>) -> Seq<u8> {
    Seq::new(
        2 * s.len(),
        |i: int|
            if i % 2 == 0 {
                hex_digit(s[i / 2] as int / 16)
            } else {
                hex_digit(s[i / 2] as int % 16)
            },
    )
}

fn hex_char(v: u8) -> (c: u8)
    requires
        v < 16,
    ensures
        c == hex_digit(v as int),
{
    if v < 10 {
        48 + v
    } else {
        87 + v
    }
}

/// The hexadecimal form of a byte string.
pub fn to_hex(s: &[u8]) -> (v: Vec<u8>)
    ensures
        v@ == hex(s@),
{
    let mut v: Vec<u8> = Vec::new();
    let mut i: usize = 0;
    while i < s.len()
        invariant
            i <= s@.len(),
            v@.len() == 2 * i,
            forall|j: int| 0 <= j < 2 * i ==> #[trigger] v@[j] == hex(s@)[j],
        decreases s.len() - i,
    {
        v.push(hex_char(s[i] / 16));
        v.push(hex_char(s[i] % 16));
        i = i + 1;
    }
    proof {
        assert(v@ =~= hex(s@));
    }
    v
}

/// Reads a hexadecimal digit.
pub fn from_hex_digit(b: u8) -> (r: Option<u8>)
    ensures
        r == hex_value(b),
{
    if 48 <= b && b <= 57 {
        Some(b - 48)
    } else if 97 <= b && b <= 102 {
        Some(b - 87)
    } else if 65 <= b && b <= 70 {
        Some(b - 55)
    } else {
        None
    }
}

/// Where the digits that start at `i` end.
pub open spec fn digits_end(s: Seq<u8>, i: int) -> int
    decreases s.len() - i,
{
    if 0 <= i < s.len() && is_digit(s[i]) {
        digits_end(s, i + 1)
    } else {
        i
    }
}

/// From `i` on stands nothing but an exponent: the letter, an optional sign
/// and at least one digit.
pub open spec fn is_exponent(s: Seq<u8>, i: int) -> bool {
    if 0 <= i < s.len() && (s[i] == 101 || s[i] == 69) {
        let k = if i + 1 < s.len() && (s[i + 1] == 43 || s[i + 1] == 45) {
            i + 2
        } else {
            i + 1
        };
        k < s.len() && digits_end(s, k) == s.len()
    } else {
        false
    }
}

/// From `i` on stands a decimal number: digits with at most one point among
/// them, at least one digit, and an optional exponent.
pub open spec fn is_number(s: Seq<u8>, i: int) -> bool {
    let a = digits_end(s, i);
    let point = a < s.len() && s[a] == 46;
    let b = if point {
        digits_end(s, a + 1)
    } else {
        a
    };
    let digits = if point {
        b - i - 1
    } else {
        b - i
    };
    digits > 0 && (b == s.len() || is_exponent(s, b))
}

/// A floating point number as text: an optional sign, and a number, an
/// infinity or not-a-number behind it.
pub open spec fn is_float_text(s: Seq<u8>) -> bool {
    let i: int = if s.len() > 0 && (s[0] == 43 || s[0] == 45) {
        1
    } else {
        0
    };
    ||| is_word(s.skip(i), "INF"@)
    ||| is_word(s.skip(i), "INFINITY"@)
    ||| is_word(s.skip(i), "NAN"@)
    ||| is_number(s, i)
}

fn skip_digits(s: &[u8], from: usize) -> (e: usize)
    requires
        from <= s@.len(),
    ensures
        e == digits_end(s@, from as int),
        from <= e <= s@.len(),
{
    let mut i: usize = from;
    while i < s.len() && 48 <= s[i] && s[i] <= 57
        invariant
            from <= i <= s@.len(),
            digits_end(s@, from as int) == digits_end(s@, i as int),
        decreases s.len() - i,
    {
        i = i + 1;
    }
    i
}

fn exponent_from(s: &[u8], i: usize) -> (r: bool)
    requires
        i <= s@.len(),
    ensures
        r == is_exponent(s@, i as int),
{
    if i < s.len() && (s[i] == 101 || s[i] == 69) {
        let k: usize = if s.len() - i > 1 && (s[i + 1] == 43 || s[i + 1] == 45) {
            i + 2
        } else {
            i + 1
        };
        k < s.len() && skip_digits(s, k) == s.len()
    } else {
        false
    }
}

fn number_from(s: &[u8], i: usize) -> (r: bool)
    requires
        i <= s@.len(),
    ensures
        r == is_number(s@, i as int),
{
    let a: usize = skip_digits(s, i);
    if a < s.len() && s[a] == 46 {
        let b: usize = skip_digits(s, a + 1);
        b - i > 1 && (b == s.len() || exponent_from(s, b))
    } else {
        a > i && (a == s.len() || exponent_from(s, a))
    }
}

/// Whether a byte string is a floating point number as text.
pub fn float_text(s: &[u8]) -> (r: bool)
    ensures
        r == is_float_text(s@),
{
    let i: usize = if s.len() > 0 && (s[0] == 43 || s[0] == 45) {
        1
    } else {
        0
    };
    let rest = vstd::slice::slice_subrange(s, i, s.len());
    proof {
        assert(rest@ =~= s@.skip(i as int));
    }
    matches_word(rest, "INF") || matches_word(rest, "INFINITY") || matches_word(rest, "NAN")
        || number_from(s, i)
}

/// Which texts are numbers: digits, with a plus sign before them or without, and
/// for signed numbers with a minus sign, too. Zeros in front change nothing. A
/// number that is too great for its width is none, and neither is a text without
/// digits or with any other byte.
pub proof fn law_number_texts(n: nat, d: Seq<u8>)
    ensures
        u64_in(dec(n)) == (if n <= u64::MAX {
            Some(n as u64)
        } else {
            None
        }),
        usize_in(dec(n)) == (if n <= usize::MAX {
            Some(n as usize)
        } else {
            None
        }),
        i64_in(dec(n)) == (if n <= i64::MAX {
            Some(n as i64)
        } else {
            None
        }),
        i64_in(seq![45u8] + dec(n)) == (if -n >= i64::MIN {
            Some((-n) as i64)
        } else {
            None
        }),
        unsigned_in(seq![43u8] + dec(n)) == Some(n),
        unsigned_in(seq![48u8] + dec(n)) == Some(n),
        unsigned_in(Seq::empty()) is None,
        signed_in(seq![45u8]) is None,
        unsigned_in(seq![43u8]) is None,
        (exists|i: int| 0 <= i < d.len() && !is_digit(#[trigger] d[i]) && (i > 0 || d[i] != 43))
            ==> unsigned_in(d) is None,
        (exists|i: int|
            0 <= i < d.len() && !is_digit(#[trigger] d[i]) && (i > 0 || (d[i] != 43 && d[i] != 45)))
            ==> signed_in(d) is None,
{
    law_decimal_round_trip(n, 0);
    lemma_dec(n);
    let x = dec(n);
    assert(is_digit(x[0]));
    let (p, m, z) = (seq![43u8] + x, seq![45u8] + x, seq![48u8] + x);
    assert(p.skip(1) =~= x && m.skip(1) =~= x);
    assert(z[0] == 48);
    assert forall|i: int| 0 <= i < z.len() implies is_digit(#[trigger] z[i]) by {
        if i > 0 {
            assert(z[i] == x[i - 1]);
        }
    }
    lemma_zero_first(x);
    assert(seq![45u8].skip(1) =~= Seq::<u8>::empty());
    assert(seq![43u8].skip(1) =~= Seq::<u8>::empty());
    if exists|i: int| 0 <= i < d.len() && !is_digit(#[trigger] d[i]) && (i > 0 || d[i] != 43) {
        let i = choose|i: int|
            0 <= i < d.len() && !is_digit(#[trigger] d[i]) && (i > 0 || d[i] != 43);
        if d[0] == 43 {
            assert(d.skip(1)[i - 1] == d[i]);
        }
    }
    if exists|i: int|
        0 <= i < d.len() && !is_digit(#[trigger] d[i]) && (i > 0 || (d[i] != 43 && d[i] != 45)) {
        let i = choose|i: int|
            0 <= i < d.len() && !is_digit(#[trigger] d[i]) && (i > 0 || (d[i] != 43 && d[i] != 45));
        if d[0] == 43 || d[0] == 45 {
            assert(d.skip(1)[i - 1] == d[i]);
        }
    }
}

proof fn lemma_zero_first(s: Seq<u8>)
    ensures
        dec_value(seq![48u8] + s) == dec_value(s),
    decreases s.len(),
{
    let z = seq![48u8] + s;
    if s.len() == 0 {
        reveal_with_fuel(dec_value, 2);
        assert(dec_value(Seq::<u8>::empty()) == 0);
        assert(z.drop_last() =~= Seq::<u8>::empty());
        assert(z.last() == 48);
    } else {
        lemma_zero_first(s.drop_last());
        assert(z.drop_last() =~= seq![48u8] + s.drop_last());
        assert(z.last() == s.last());
    }
}

} // verus!
