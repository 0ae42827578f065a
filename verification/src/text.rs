//! Text machinery: lexicographic comparison of character sequences, decimal
//! rendering and parsing of unsigned integers, and the conversions between
//! `String`, character vectors and UTF-8 bytes.

use vstd::prelude::*;

verus! {

// ---------------------------------------------------------------------------
// Conversions between strings and character vectors.
// ---------------------------------------------------------------------------

/// Relies on `str::chars` and `Iterator::collect`: the characters of the
/// string, in order.
#[verifier::external_body]
pub fn str_to_chars(s: &str) -> (r: Vec<char>)
    ensures
        r@ == s@,
{
    s.chars().collect()
}

/// Relies on `FromIterator<char> for String`: the string made of exactly the
/// given characters, in order.
#[verifier::external_body]
pub fn chars_to_string(v: &Vec<char>) -> (r: String)
    ensures
        r@ == v@,
{
    v.iter().collect()
}

/// Relies on `String::from_utf8`: succeeds exactly on valid UTF-8 input and
/// returns the decoded characters.
#[verifier::external_body]
pub fn bytes_to_string(v: Vec<u8>) -> (r: Option<String>)
    ensures
        r is Some <==> vstd::utf8::valid_utf8(v@),
        r is Some ==> r->0@ == vstd::utf8::decode_utf8(v@),
{
    match String::from_utf8(v) {
        Ok(s) => Some(s),
        Err(_) => None,
    }
}

// ---------------------------------------------------------------------------
// Lexicographic order on character sequences (by code point).
// ---------------------------------------------------------------------------

/// Strict lexicographic order on character sequences, by code point.
pub open spec fn chars_lt(a: Seq<char>, b: Seq<char>) -> bool
    decreases a.len(),
{
    if b.len() == 0 {
        false
    } else if a.len() == 0 {
        true
    } else if a[0] < b[0] {
        true
    } else if b[0] < a[0] {
        false
    } else {
        chars_lt(a.drop_first(), b.drop_first())
    }
}

/// Strict lexicographic order is asymmetric.
pub proof fn lemma_chars_lt_asym(a: Seq<char>, b: Seq<char>)
    requires
        chars_lt(a, b),
    ensures
        !chars_lt(b, a),
    decreases a.len(),
{
    if a.len() > 0 && b.len() > 0 && a[0] == b[0] {
        lemma_chars_lt_asym(a.drop_first(), b.drop_first());
    }
}

/// Strict lexicographic order is transitive.
pub proof fn lemma_chars_lt_trans(a: Seq<char>, b: Seq<char>, c: Seq<char>)
    requires
        chars_lt(a, b),
        chars_lt(b, c),
    ensures
        chars_lt(a, c),
    decreases a.len(),
{
    if a.len() > 0 && b.len() > 0 && c.len() > 0 && a[0] == b[0] && b[0] == c[0] {
        lemma_chars_lt_trans(a.drop_first(), b.drop_first(), c.drop_first());
    }
}

/// Dropping an equal first character from both sequences keeps their order.
proof fn lemma_chars_lt_skip(a: Seq<char>, b: Seq<char>, i: int)
    requires
        0 <= i <= a.len(),
        i <= b.len(),
        forall|j: int| 0 <= j < i ==> a[j] == b[j],
    ensures
        chars_lt(a, b) == chars_lt(a.skip(i), b.skip(i)),
    decreases i,
{
    if i == 0 {
        assert(a.skip(0) =~= a);
        assert(b.skip(0) =~= b);
    } else {
        assert(a.len() > 0 && b.len() > 0 && a[0] == b[0]);
        assert(a.drop_first().skip(i - 1) =~= a.skip(i));
        assert(b.drop_first().skip(i - 1) =~= b.skip(i));
        assert(forall|j: int| 0 <= j < i - 1 ==> a.drop_first()[j] == b.drop_first()[j]);
        lemma_chars_lt_skip(a.drop_first(), b.drop_first(), i - 1);
    }
}

/// Three-way comparison of character vectors: -1 for less, 0 for equal, 1 for
/// greater, in lexicographic code-point order.
pub fn cmp_chars(a: &Vec<char>, b: &Vec<char>) -> (r: i8)
    ensures
        r == -1 <==> chars_lt(a@, b@),
        r == 0 <==> a@ == b@,
        r == 1 <==> chars_lt(b@, a@),
        r == -1 || r == 0 || r == 1,
{
    let mut i: usize = 0;
    loop
        invariant
            0 <= i <= a@.len(),
            i <= b@.len(),
            forall|j: int| 0 <= j < i ==> a@[j] == b@[j],
        decreases a@.len() - i,
    {
        proof {
            lemma_chars_lt_skip(a@, b@, i as int);
            lemma_chars_lt_skip(b@, a@, i as int);
        }
        if i == a.len() && i == b.len() {
            proof {
                assert(a@ =~= b@);
            }
            return 0;
        }
        if i == a.len() {
            proof {
                assert(chars_lt(a@.skip(i as int), b@.skip(i as int)));
                assert(a@.len() != b@.len());
            }
            return -1;
        }
        if i == b.len() {
            proof {
                assert(chars_lt(b@.skip(i as int), a@.skip(i as int)));
                assert(a@.len() != b@.len());
            }
            return 1;
        }
        let ca = a[i];
        let cb = b[i];
        if ca < cb {
            proof {
                assert(a@.skip(i as int)[0] == ca && b@.skip(i as int)[0] == cb);
                assert(chars_lt(a@.skip(i as int), b@.skip(i as int)));
                assert(!chars_lt(b@.skip(i as int), a@.skip(i as int)));
                assert(a@[i as int] != b@[i as int]);
            }
            return -1;
        }
        if cb < ca {
            proof {
                assert(a@.skip(i as int)[0] == ca && b@.skip(i as int)[0] == cb);
                assert(chars_lt(b@.skip(i as int), a@.skip(i as int)));
                assert(!chars_lt(a@.skip(i as int), b@.skip(i as int)));
                assert(a@[i as int] != b@[i as int]);
            }
            return 1;
        }
        i = i + 1;
    }
}

// ---------------------------------------------------------------------------
// Decimal digits.
// ---------------------------------------------------------------------------

/// Whether a character is a decimal digit.
pub open spec fn is_digit(c: char) -> bool {
    '0' <= c && c <= '9'
}

/// The value of a decimal digit character.
pub open spec fn digit_val(c: char) -> nat {
    if c == '0' {
        0
    } else if c == '1' {
        1
    } else if c == '2' {
        2
    } else if c == '3' {
        3
    } else if c == '4' {
        4
    } else if c == '5' {
        5
    } else if c == '6' {
        6
    } else if c == '7' {
        7
    } else if c == '8' {
        8
    } else {
        9
    }
}

/// The character for a digit value below ten.
pub open spec fn digit_char(d: nat) -> char {
    if d == 0 {
        '0'
    } else if d == 1 {
        '1'
    } else if d == 2 {
        '2'
    } else if d == 3 {
        '3'
    } else if d == 4 {
        '4'
    } else if d == 5 {
        '5'
    } else if d == 6 {
        '6'
    } else if d == 7 {
        '7'
    } else if d == 8 {
        '8'
    } else {
        '9'
    }
}

/// The digit character for a value below ten.
pub fn digit_to_char(d: u64) -> (r: char)
    requires
        d < 10,
    ensures
        r == digit_char(d as nat),
{
    if d == 0 {
        '0'
    } else if d == 1 {
        '1'
    } else if d == 2 {
        '2'
    } else if d == 3 {
        '3'
    } else if d == 4 {
        '4'
    } else if d == 5 {
        '5'
    } else if d == 6 {
        '6'
    } else if d == 7 {
        '7'
    } else if d == 8 {
        '8'
    } else {
        '9'
    }
}

/// The value of a digit character.
pub fn char_to_digit(c: char) -> (r: u64)
    requires
        is_digit(c),
    ensures
        r == digit_val(c),
        r < 10,
{
    if c == '0' {
        0
    } else if c == '1' {
        1
    } else if c == '2' {
        2
    } else if c == '3' {
        3
    } else if c == '4' {
        4
    } else if c == '5' {
        5
    } else if c == '6' {
        6
    } else if c == '7' {
        7
    } else if c == '8' {
        8
    } else {
        proof {
            assert(c == '9');
        }
        9
    }
}

/// The decimal rendering of a natural number, most significant digit first,
/// with no leading zeros.
pub open spec fn dec_chars(n: nat) -> Seq<char>
    decreases n,
{
    if n < 10 {
        seq![digit_char(n)]
    } else {
        dec_chars(n / 10).push(digit_char(n % 10))
    }
}

/// The value of a digit string, most significant digit first.
pub open spec fn dec_val(s: Seq<char>) -> nat
    decreases s.len(),
{
    if s.len() == 0 {
        0
    } else {
        dec_val(s.drop_last()) * 10 + digit_val(s.last())
    }
}

/// Whether every character of the sequence is a decimal digit.
pub open spec fn all_digits(s: Seq<char>) -> bool {
    forall|i: int| 0 <= i < s.len() ==> is_digit(#[trigger] s[i])
}

/// What parsing a string as an unsigned 64-bit integer yields, as Rust's
/// standard parse does: one optional leading plus sign, then at least one
/// digit, within range.
pub open spec fn parse_u64_spec(s: Seq<char>) -> Option<u64> {
    let digits = if s.len() > 0 && s[0] == '+' {
        s.drop_first()
    } else {
        s
    };
    if digits.len() > 0 && all_digits(digits) && dec_val(digits) <= u64::MAX {
        Some(dec_val(digits) as u64)
    } else {
        None
    }
}

/// The value of a digit string is at least the value of any of its prefixes.
pub proof fn lemma_dec_val_prefix(s: Seq<char>, j: int)
    requires
        0 <= j <= s.len(),
    ensures
        dec_val(s) >= dec_val(s.take(j)),
    decreases s.len() - j,
{
    if j == s.len() {
        assert(s.take(j) =~= s);
    } else {
        lemma_dec_val_prefix(s, j + 1);
        assert(s.take(j + 1).drop_last() =~= s.take(j));
        assert(dec_val(s.take(j + 1)) == dec_val(s.take(j)) * 10 + digit_val(s.take(j + 1).last()));
        assert(dec_val(s.take(j)) * 10 >= dec_val(s.take(j))) by (nonlinear_arith);
    }
}

/// The decimal rendering of a number consists of digits, has no leading zero
/// unless it is "0" itself, and parses back to the number.
pub proof fn lemma_dec_chars_val(n: nat)
    ensures
        all_digits(dec_chars(n)),
        dec_val(dec_chars(n)) == n,
        dec_chars(n).len() >= 1,
        dec_chars(n)[0] == '0' ==> dec_chars(n).len() == 1 && n == 0,
    decreases n,
{
    if n < 10 {
        assert(dec_chars(n) =~= seq![digit_char(n)]);
        assert(dec_chars(n).drop_last() =~= Seq::<char>::empty());
        assert(is_digit(digit_char(n)) && digit_val(digit_char(n)) == n);
        assert(dec_chars(n).last() == digit_char(n));
        assert(dec_val(Seq::<char>::empty()) == 0);
        assert(dec_val(dec_chars(n)) == dec_val(dec_chars(n).drop_last()) * 10 + digit_val(
            dec_chars(n).last(),
        ));
    } else {
        lemma_dec_chars_val(n / 10);
        let s = dec_chars(n);
        assert(s == dec_chars(n / 10).push(digit_char(n % 10)));
        assert(s.drop_last() =~= dec_chars(n / 10));
        assert(s.last() == digit_char(n % 10));
        assert(is_digit(digit_char(n % 10)) && digit_val(digit_char(n % 10)) == n % 10);
        assert(dec_val(s) == (n / 10) * 10 + n % 10);
        assert((n / 10) * 10 + n % 10 == n) by (nonlinear_arith);
        assert(s[0] == dec_chars(n / 10)[0]);
        assert(n / 10 > 0);
    }
}

/// Render an unsigned 64-bit integer in decimal.
pub fn u64_to_dec_chars(n: u64) -> (r: Vec<char>)
    ensures
        r@ == dec_chars(n as nat),
    decreases n,
{
    if n < 10 {
        let c = digit_to_char(n);
        let mut v: Vec<char> = Vec::new();
        v.push(c);
        proof {
            assert(v@ =~= seq![digit_char(n as nat)]);
        }
        v
    } else {
        let mut v = u64_to_dec_chars(n / 10);
        let c = digit_to_char(n % 10);
        v.push(c);
        v
    }
}

/// Parse a character vector as an unsigned 64-bit integer: one optional
/// leading plus sign, then digits only (any number of leading zeros
/// accepted), overflow rejected.
pub fn parse_u64(s: &Vec<char>) -> (r: Option<u64>)
    ensures
        r == parse_u64_spec(s@),
{
    if s.len() == 0 {
        return None;
    }
    let start: usize = if s[0] == '+' {
        1
    } else {
        0
    };
    let ghost digits = if s@[0] == '+' {
        s@.drop_first()
    } else {
        s@
    };
    if s.len() == start {
        return None;
    }
    let mut acc: u64 = 0;
    let mut i: usize = start;
    while i < s.len()
        invariant
            start <= i <= s@.len(),
            s@.len() > start,
            s@.len() > 0,
            (s@[0] == '+') <==> start == 1,
            start == 0 || start == 1,
            digits == (if s@[0] == '+' {
                s@.drop_first()
            } else {
                s@
            }),
            digits.len() == s@.len() - start,
            forall|j: int| 0 <= j < digits.len() ==> #[trigger] digits[j] == s@[j + start],
            forall|j: int| start <= j < i ==> is_digit(#[trigger] s@[j]),
            acc == dec_val(digits.take(i - start)),
        decreases s@.len() - i,
    {
        let c = s[i];
        if c < '0' || '9' < c {
            proof {
                assert(digits[i - start] == s@[i as int]);
                assert(!is_digit(digits[i - start]));
            }
            return None;
        }
        let d: u64 = char_to_digit(c);
        proof {
            assert(digits.take(i - start + 1).drop_last() =~= digits.take(i - start));
            assert(digits.take(i - start + 1).last() == digits[i - start]);
            assert(digits[i - start] == s@[i as int]);
            assert(dec_val(digits.take(i - start + 1)) == dec_val(digits.take(i - start)) * 10
                + digit_val(s@[i as int]));
        }
        if acc > 1844674407370955161 || (acc == 1844674407370955161 && d > 5) {
            proof {
                assert(dec_val(digits.take(i - start + 1)) > u64::MAX) by {
                    assert(acc * 10 + d > u64::MAX) by (nonlinear_arith)
                        requires
                            acc > 1844674407370955161 || (acc == 1844674407370955161 && d > 5),
                    ;
                }
                lemma_dec_val_prefix(digits, i - start + 1);
            }
            return None;
        }
        acc = acc * 10 + d;
        i = i + 1;
    }
    proof {
        assert(digits.take(i - start) =~= digits);
        assert(all_digits(digits)) by {
            assert forall|j: int| 0 <= j < digits.len() implies is_digit(#[trigger] digits[j]) by {
                assert(digits[j] == s@[j + start]);
            }
        }
    }
    Some(acc)
}

} // verus!
