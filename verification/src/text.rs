//! Character-level text helpers: ASCII case folding, decimal digits and
//! the conversions between `str`, `String` and `Vec<char>`.

use std::num::IntErrorKind;

use vstd::prelude::*;

verus! {

/// `c` with an upper-case ASCII letter turned into lower case; any other
/// character unchanged (what `char::to_ascii_lowercase` does).
pub open spec fn lower_char(c: char) -> char {
    if 'A' <= c && c <= 'Z' {
        ((c as u32) + 32) as char
    } else {
        c
    }
}

/// `s` with every ASCII upper-case letter turned into lower case.
pub open spec fn ascii_lowercase(s: Seq<char>) -> Seq<char> {
    s.map_values(|c: char| lower_char(c))
}

/// Whether `c` is one of the ASCII digits `0` to `9`.
pub open spec fn is_digit(c: char) -> bool {
    '0' <= c && c <= '9'
}

/// The value of an ASCII digit.
pub open spec fn digit_value(c: char) -> nat {
    ((c as int) - ('0' as int)) as nat
}

/// The ASCII digit for a value below ten.
pub open spec fn digit_char(d: nat) -> char {
    (('0' as int) + d) as char
}

/// The value of a string of ASCII digits, read in base ten.
pub open spec fn digits_value(s: Seq<char>) -> nat
    decreases s.len(),
{
    if s.len() == 0 {
        0
    } else {
        digits_value(s.drop_last()) * 10 + digit_value(s.last())
    }
}

/// The shortest base-ten text of `n`, without sign or leading zeros.
pub open spec fn decimal(n: nat) -> Seq<char>
    decreases n,
{
    if n < 10 {
        seq![digit_char(n)]
    } else {
        decimal(n / 10).push(digit_char(n % 10))
    }
}

/// The character `c` in lower case, as `lower_char` says.
pub fn lowercase_char(c: char) -> (r: char)
    ensures
        r == lower_char(c),
{
    if 'A' <= c && c <= 'Z' {
        ((c as u8) + 32) as char
    } else {
        c
    }
}

/// The characters of `s`.
pub fn chars_of(s: &str) -> (v: Vec<char>)
    ensures
        v@ == s@,
{
    let n = s.unicode_len();
    let mut v: Vec<char> = Vec::new();
    let mut i: usize = 0;
    while i < n
        invariant
            n == s@.len(),
            i <= n,
            v@ == s@.subrange(0, i as int),
        decreases n - i,
    {
        let c = s.get_char(i);
        v.push(c);
        i = i + 1;
    }
    v
}

/// The ASCII digit for `d`, which is below ten.
fn digit(d: u32) -> (c: char)
    requires
        d < 10,
    ensures
        c == digit_char(d as nat),
{
    ((d as u8) + 48) as char
}

/// The shortest base-ten text of `n`, as `decimal` says.
pub fn decimal_chars(n: u32) -> (v: Vec<char>)
    ensures
        v@ == decimal(n as nat),
    decreases n,
{
    if n < 10 {
        let mut v: Vec<char> = Vec::new();
        v.push(digit(n));
        v
    } else {
        let mut v = decimal_chars(n / 10);
        v.push(digit(n % 10));
        v
    }
}

/// `v` with every ASCII upper-case letter in lower case.
pub fn lowercase_chars(v: &Vec<char>) -> (r: Vec<char>)
    ensures
        r@ == ascii_lowercase(v@),
{
    let mut r: Vec<char> = Vec::new();
    let mut i: usize = 0;
    while i < v.len()
        invariant
            i <= v.len(),
            r@ == ascii_lowercase(v@.subrange(0, i as int)),
        decreases v.len() - i,
    {
        let c = lowercase_char(v[i]);
        proof {
            assert(ascii_lowercase(v@.subrange(0, i + 1)) =~= ascii_lowercase(v@.subrange(0, i as int)).push(c));
        }
        r.push(c);
        i = i + 1;
    }
    proof {
        assert(v@.subrange(0, v.len() as int) =~= v@);
    }
    r
}

/// Whether the characters `a` spell out `b`.
pub fn chars_equal(a: &[char], b: &str) -> (r: bool)
    ensures
        r == (a@ == b@),
{
    let n = b.unicode_len();
    if a.len() != n {
        return false;
    }
    let mut i: usize = 0;
    while i < n
        invariant
            n == b@.len(),
            n == a@.len(),
            i <= n,
            a@.subrange(0, i as int) == b@.subrange(0, i as int),
        decreases n - i,
    {
        if a[i] != b.get_char(i) {
            return false;
        }
        proof {
            assert(a@.subrange(0, i + 1) =~= a@.subrange(0, i as int).push(a@[i as int]));
            assert(b@.subrange(0, i + 1) =~= b@.subrange(0, i as int).push(b@[i as int]));
        }
        i = i + 1;
    }
    proof {
        assert(a@ =~= a@.subrange(0, n as int));
        assert(b@ =~= b@.subrange(0, n as int));
    }
    true
}

/// `v[from..to]` as a vector of its own.
pub fn sub_chars(v: &[char], from: usize, to: usize) -> (r: Vec<char>)
    requires
        from <= to <= v@.len(),
    ensures
        r@ == v@.subrange(from as int, to as int),
{
    let mut r: Vec<char> = Vec::new();
    let mut i: usize = from;
    while i < to
        invariant
            from <= i <= to,
            to <= v@.len(),
            r@ == v@.subrange(from as int, i as int),
        decreases to - i,
    {
        r.push(v[i]);
        proof {
            assert(v@.subrange(from as int, i + 1) =~= v@.subrange(from as int, i as int).push(v@[i as int]));
        }
        i = i + 1;
    }
    r
}

/// `std`'s `FromIterator<&char>` for `String` (`iter().collect()`): the
/// string that holds exactly the characters `chars`, in order.
#[verifier::external_body]
pub(crate) fn string_from_chars(chars: &[char]) -> (s: String)
    ensures
        s@ == chars@,
{
    chars.iter().collect()
}

/// The text after an optional leading `+`.
pub open spec fn unsigned_digits(s: Seq<char>) -> Seq<char> {
    if s.len() > 0 && s[0] == '+' {
        s.drop_first()
    } else {
        s
    }
}

/// Whether every character of `s` is an ASCII digit.
pub open spec fn all_digits(s: Seq<char>) -> bool {
    forall|i: int| 0 <= i < s.len() ==> is_digit(#[trigger] s[i])
}

/// The `u16` that `s` denotes as `std` reads it: an optional `+`, then one or
/// more ASCII digits whose base-ten value is at most `u16::MAX`.
pub open spec fn u16_text_value(s: Seq<char>) -> Option<u16> {
    let d = unsigned_digits(s);
    if d.len() > 0 && all_digits(d) && digits_value(d) <= u16::MAX {
        Some(digits_value(d) as u16)
    } else {
        None
    }
}

/// Why a text is no integer: the kinds of `std::num::IntErrorKind`, with
/// one more for a kind that a later `std` may add.
#[derive(Clone, Copy, Debug, PartialEq, Eq, Structural)]
pub enum NumberFault {
    /// The text is empty.
    Empty,
    /// The text holds a character that is no digit where it stands.
    InvalidDigit,
    /// The value is too large for the type.
    PosOverflow,
    /// The value is too small for the type.
    NegOverflow,
    /// The value is zero where zero is not allowed.
    Zero,
    /// A kind that `std` added after these.
    Unknown,
}

/// The kind of error that `std` gives when it reads `text` as a `u16` and
/// fails.
pub uninterp spec fn u16_parse_fault(text: Seq<char>) -> NumberFault;

/// `str::parse::<u16>` (`u16::from_str`), with the `ParseIntError` of a
/// failure reported by its kind (`ParseIntError::kind`). Its documentation:
/// the text is an optional `+` followed by base-ten digits only, and the
/// value must fit in a `u16`; anything else (an empty text, a lone sign, a
/// `-`, any other character, an overflow) is an error. An empty text gives
/// `Empty`, and only an empty text does; a lone `+` gives `InvalidDigit`;
/// digits whose value is too large give `PosOverflow`. The contract claims
/// that: `Ok` holds the value that `u16_text_value` gives, and `Err` comes
/// when it gives none, with the kind that `std` gives for this text. Which
/// kind a text with a character that is no digit gives is not documented
/// beyond that, and is left unsaid.
#[verifier::external_body]
pub(crate) fn parse_u16(text: &str) -> (r: Result<u16, NumberFault>)
    ensures
        match r {
            Ok(v) => u16_text_value(text@) == Some(v),
            Err(k) => {
                &&& u16_text_value(text@) is None
                &&& k == u16_parse_fault(text@)
                &&& (k == NumberFault::Empty <==> text@.len() == 0)
                &&& (text@ == seq!['+'] ==> k == NumberFault::InvalidDigit)
                &&& (unsigned_digits(text@).len() > 0 && all_digits(unsigned_digits(text@)) ==> k
                    == NumberFault::PosOverflow)
            },
        },
{
    text.parse::<u16>().map_err(|e| match e.kind() {
        IntErrorKind::Empty => NumberFault::Empty,
        IntErrorKind::InvalidDigit => NumberFault::InvalidDigit,
        IntErrorKind::PosOverflow => NumberFault::PosOverflow,
        IntErrorKind::NegOverflow => NumberFault::NegOverflow,
        IntErrorKind::Zero => NumberFault::Zero,
        _ => NumberFault::Unknown,
    })
}

/// Folding to lower case twice is folding once.
pub proof fn lemma_lowercase_idempotent(s: Seq<char>)
    ensures
        ascii_lowercase(ascii_lowercase(s)) == ascii_lowercase(s),
{
    assert(ascii_lowercase(ascii_lowercase(s)) =~= ascii_lowercase(s));
}

/// The decimal text of a number is a nonempty string of digits whose value
/// is that number.
pub proof fn lemma_decimal_digits(n: nat)
    ensures
        decimal(n).len() > 0,
        all_digits(decimal(n)),
        digits_value(decimal(n)) == n,
    decreases n,
{
    let c = digit_char(n % 10);
    assert(is_digit(c) && digit_value(c) == n % 10);
    if n >= 10 {
        lemma_decimal_digits(n / 10);
        let d = decimal(n / 10);
        assert(decimal(n) == d.push(c));
        assert(decimal(n).drop_last() =~= d);
        assert(digits_value(decimal(n)) == digits_value(d) * 10 + digit_value(c));
        assert((n / 10) * 10 + n % 10 == n) by (nonlinear_arith);
        assert forall|i: int| 0 <= i < decimal(n).len() implies is_digit(#[trigger] decimal(n)[i]) by {
            if i < d.len() {
                assert(decimal(n)[i] == d[i]);
            }
        }
    } else {
        assert(seq![digit_char(n)].drop_last() =~= Seq::<char>::empty());
        assert(n % 10 == n);
        assert(digits_value(decimal(n)) == digits_value(Seq::<char>::empty()) * 10 + digit_value(c));
    }
}

/// `std` reads back the `u16` that its decimal text shows.
pub proof fn lemma_u16_text_of_decimal(n: u16)
    ensures
        u16_text_value(decimal(n as nat)) == Some(n),
{
    lemma_decimal_digits(n as nat);
    assert(is_digit(decimal(n as nat)[0]));
}

/// Ten to the power `n`.
pub open spec fn pow10(n: nat) -> nat
    decreases n,
{
    if n == 0 {
        1
    } else {
        10 * pow10((n - 1) as nat)
    }
}

/// A string of digits is worth less than its first digit plus one, times
/// ten to the power of the number of digits after it.
pub proof fn lemma_digits_value_bound(d: Seq<char>)
    requires
        d.len() > 0,
        all_digits(d),
    ensures
        digits_value(d) + 1 <= (digit_value(d[0]) + 1) * pow10((d.len() - 1) as nat),
    decreases d.len(),
{
    if d.len() == 1 {
        assert(d.drop_last() =~= Seq::<char>::empty());
        assert(d.last() == d[0]);
        assert(digits_value(Seq::<char>::empty()) == 0);
        assert(digits_value(d) == digits_value(d.drop_last()) * 10 + digit_value(d.last()));
        assert(digits_value(d) == digit_value(d[0]));
        assert(pow10(0) == 1);
    } else {
        let e = d.drop_last();
        assert(all_digits(e)) by {
            assert forall|i: int| 0 <= i < e.len() implies is_digit(#[trigger] e[i]) by {
                assert(e[i] == d[i]);
            }
        }
        lemma_digits_value_bound(e);
        assert(e[0] == d[0]);
        assert(is_digit(d.last()));
        assert(digit_value(d.last()) <= 9);
        assert(digits_value(d) == digits_value(e) * 10 + digit_value(d.last()));
        let x = digits_value(e) + 1;
        let y = (digit_value(d[0]) + 1) * pow10((e.len() - 1) as nat);
        assert(x * 10 <= y * 10) by (nonlinear_arith)
            requires
                x <= y,
        ;
        assert(y * 10 == (digit_value(d[0]) + 1) * pow10((d.len() - 1) as nat)) by (nonlinear_arith)
            requires
                y == (digit_value(d[0]) + 1) * pow10((e.len() - 1) as nat),
                pow10((d.len() - 1) as nat) == 10 * pow10((e.len() - 1) as nat),
        ;
    }
}

} // verus!
