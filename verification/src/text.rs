//! Character-level string utilities shared by the rest of the library.

use vstd::prelude::*;

verus! {

/// Appends one character to a string.
///
/// Trusted: calls `String::push`, which appends the given `char` to the end
/// of the string.
#[verifier::external_body]
pub(crate) fn push_char(s: &mut String, c: char)
    ensures
        final(s)@ == old(s)@.push(c),
{
    s.push(c);
}

/// The characters of `s`, in order.
pub fn chars_of(s: &str) -> (v: Vec<char>)
    ensures
        v@ == s@,
{
    let n = s.unicode_len();
    let mut v: Vec<char> = Vec::new();
    let mut i: usize = 0;
    while i < n
        invariant
            n == s@.len(),
            i <= n,
            v@ == s@.subrange(0, i as int),
        decreases n - i,
    {
        let c = s.get_char(i);
        v.push(c);
        i = i + 1;
    }
    v
}

/// A string holding exactly the characters of `v`.
pub fn string_of(v: &Vec<char>) -> (s: String)
    ensures
        s@ == v@,
{
    let mut s = String::new();
    let mut i: usize = 0;
    while i < v.len()
        invariant
            i <= v.len(),
            s@ == v@.subrange(0, i as int),
        decreases v.len() - i,
    {
        push_char(&mut s, v[i]);
        i = i + 1;
    }
    s
}


/// The outcome of comparing two values in a total order.
#[derive(Debug, Clone, Copy, PartialEq, Eq)]
pub enum Comparison {
    Less,
    Equal,
    Greater,
}

/// Strict lexicographic order on character sequences, characters being
/// ordered by code point (which is also the byte order of their UTF-8 forms).
pub open spec fn lex_lt(a: Seq<char>, b: Seq<char>) -> bool
    decreases a.len(),
{
    if b.len() == 0 {
        false
    } else if a.len() == 0 {
        true
    } else if a[0] < b[0] {
        true
    } else if a[0] > b[0] {
        false
    } else {
        lex_lt(a.drop_first(), b.drop_first())
    }
}

/// The comparison of `a` and `b` in lexicographic order.
pub open spec fn lex_comparison(a: Seq<char>, b: Seq<char>) -> Comparison {
    if lex_lt(a, b) {
        Comparison::Less
    } else if a == b {
        Comparison::Equal
    } else {
        Comparison::Greater
    }
}

/// Exactly one of `a < b`, `a == b`, `b < a` holds.
pub proof fn lemma_lex_trichotomy(a: Seq<char>, b: Seq<char>)
    ensures
        lex_lt(a, b) || a == b || lex_lt(b, a),
        !(lex_lt(a, b) && lex_lt(b, a)),
        !lex_lt(a, a),
    decreases a.len(),
{
    if a.len() > 0 && b.len() > 0 && a[0] == b[0] {
        lemma_lex_trichotomy(a.drop_first(), b.drop_first());
        if a.drop_first() == b.drop_first() {
            assert forall|i: int| 0 <= i < a.len() implies a[i] == b[i] by {
                if i > 0 {
                    assert(a[i] == a.drop_first()[i - 1]);
                    assert(b[i] == b.drop_first()[i - 1]);
                }
            }
            assert(a =~= b);
        }
    }
    if a.len() == 0 && b.len() == 0 {
        assert(a =~= b);
    }
    if a.len() > 0 {
        lemma_lex_trichotomy(a.drop_first(), a.drop_first());
    }
}

/// The strict lexicographic order is transitive.
pub proof fn lemma_lex_transitive(a: Seq<char>, b: Seq<char>, c: Seq<char>)
    requires
        lex_lt(a, b),
        lex_lt(b, c),
    ensures
        lex_lt(a, c),
    decreases a.len(),
{
    if a.len() > 0 && b.len() > 0 && c.len() > 0 && a[0] == b[0] && b[0] == c[0] {
        lemma_lex_transitive(a.drop_first(), b.drop_first(), c.drop_first());
    }
}

/// Compares two character sequences lexicographically.
pub fn compare_chars(a: &Vec<char>, b: &Vec<char>) -> (r: Comparison)
    ensures
        r == lex_comparison(a@, b@),
{
    proof {
        lemma_lex_trichotomy(a@, b@);
    }
    let mut i: usize = 0;
    assert(a@.skip(0) =~= a@);
    assert(b@.skip(0) =~= b@);
    while i < a.len() && i < b.len()
        invariant
            i <= a.len(),
            i <= b.len(),
            a@.subrange(0, i as int) == b@.subrange(0, i as int),
            lex_lt(a@, b@) == lex_lt(a@.skip(i as int), b@.skip(i as int)),
            lex_lt(a@, b@) || a@ == b@ || lex_lt(b@, a@),
            !(lex_lt(a@, b@) && lex_lt(b@, a@)),
        decreases a.len() - i,
    {
        let x = a[i];
        let y = b[i];
        if x < y {
            return Comparison::Less;
        }
        if x > y {
            assert(lex_lt(b@.skip(i as int), a@.skip(i as int)));
            proof {
                lemma_lex_trichotomy(a@, b@);
            }
            return Comparison::Greater;
        }
        assert(a@.skip(i as int).drop_first() =~= a@.skip(i + 1));
        assert(b@.skip(i as int).drop_first() =~= b@.skip(i + 1));
        assert(a@.subrange(0, i + 1) =~= a@.subrange(0, i as int).push(x));
        assert(b@.subrange(0, i + 1) =~= b@.subrange(0, i as int).push(y));
        assert(x == y);
        i = i + 1;
    }
    if a.len() == b.len() {
        assert(a@ =~= a@.subrange(0, i as int));
        assert(b@ =~= b@.subrange(0, i as int));
        Comparison::Equal
    } else if i == a.len() {
        assert(a@.skip(i as int).len() == 0);
        Comparison::Less
    } else {
        assert(b@.skip(i as int).len() == 0);
        assert(lex_lt(b@.skip(i as int), a@.skip(i as int)));
        assert(a@ != b@);
        Comparison::Greater
    }
}

/// Compares two strings lexicographically.
pub fn compare_str(a: &str, b: &str) -> (r: Comparison)
    ensures
        r == lex_comparison(a@, b@),
{
    let x = chars_of(a);
    let y = chars_of(b);
    compare_chars(&x, &y)
}


/// The digits used for bases up to sixteen, in lowercase.
pub open spec fn digit_alphabet() -> Seq<char> {
    seq!['0', '1', '2', '3', '4', '5', '6', '7', '8', '9', 'a', 'b', 'c', 'd', 'e', 'f']
}

/// The digit character for `d` (`d < 16`).
pub open spec fn digit_char(d: nat) -> char {
    digit_alphabet()[d as int]
}

/// The decimal digits of `n`, most significant first, without leading zeros.
pub open spec fn decimal(n: nat) -> Seq<char>
    decreases n,
{
    if n < 10 {
        seq![digit_char(n)]
    } else {
        decimal(n / 10).push(digit_char(n % 10))
    }
}

/// The lowercase hexadecimal digits of `n`, most significant first, without
/// leading zeros.
pub open spec fn hexadecimal(n: nat) -> Seq<char>
    decreases n,
{
    if n < 16 {
        seq![digit_char(n)]
    } else {
        hexadecimal(n / 16).push(digit_char(n % 16))
    }
}

/// `s` left-padded with `fill` to at least `width` characters.
pub open spec fn pad_left(s: Seq<char>, width: nat, fill: char) -> Seq<char> {
    if s.len() >= width {
        s
    } else {
        Seq::new((width - s.len()) as nat, |i: int| fill) + s
    }
}

/// The character for digit `d`.
pub fn digit_to_char(d: u8) -> (c: char)
    requires
        d < 16,
    ensures
        c == digit_char(d as nat),
{
    match d {
        0 => '0',
        1 => '1',
        2 => '2',
        3 => '3',
        4 => '4',
        5 => '5',
        6 => '6',
        7 => '7',
        8 => '8',
        9 => '9',
        10 => 'a',
        11 => 'b',
        12 => 'c',
        13 => 'd',
        14 => 'e',
        _ => 'f',
    }
}

/// Appends the decimal form of `n` to `s`.
pub fn push_decimal(s: &mut String, n: u128)
    ensures
        final(s)@ == old(s)@ + decimal(n as nat),
    decreases n,
{
    if n >= 10 {
        push_decimal(s, n / 10);
    }
    let d = (n % 10) as u8;
    push_char(s, digit_to_char(d));
    assert(final(s)@ =~= old(s)@ + decimal(n as nat));
}

/// Appends the lowercase hexadecimal form of `n` to `s`.
pub fn push_hexadecimal(s: &mut String, n: u128)
    ensures
        final(s)@ == old(s)@ + hexadecimal(n as nat),
    decreases n,
{
    if n >= 16 {
        push_hexadecimal(s, n / 16);
    }
    let d = (n % 16) as u8;
    push_char(s, digit_to_char(d));
    assert(final(s)@ =~= old(s)@ + hexadecimal(n as nat));
}

/// The decimal form of `n` (as `n.to_string()`).
pub fn u128_to_decimal(n: u128) -> (s: String)
    ensures
        s@ == decimal(n as nat),
{
    let mut s = String::new();
    push_decimal(&mut s, n);
    assert(s@ =~= decimal(n as nat));
    s
}

/// The decimal form of `n` (as `n.to_string()`).
pub fn u64_to_decimal(n: u64) -> (s: String)
    ensures
        s@ == decimal(n as nat),
{
    u128_to_decimal(n as u128)
}

/// Lowercase hexadecimal of `n`, zero-padded to at least two digits (as
/// `format!("{n:02x}")`).
pub fn u128_to_hex(n: u128) -> (s: String)
    ensures
        s@ == pad_left(hexadecimal(n as nat), 2, '0'),
{
    let mut s = String::new();
    if n < 16 {
        push_char(&mut s, '0');
    }
    push_hexadecimal(&mut s, n);
    proof {
        reveal_with_fuel(hexadecimal, 2);
        if n < 16 {
            assert(s@ =~= pad_left(hexadecimal(n as nat), 2, '0'));
        } else {
            lemma_hexadecimal_len(n as nat);
            assert(s@ =~= pad_left(hexadecimal(n as nat), 2, '0'));
        }
    }
    s
}

/// Sixteen to the power `k`.
pub open spec fn pow16(k: nat) -> nat
    decreases k,
{
    if k == 0 {
        1
    } else {
        16 * pow16((k - 1) as nat)
    }
}

/// Hexadecimal forms of numbers below `16^k` have at most `k` digits.
pub proof fn lemma_hexadecimal_len_bound(n: nat, k: nat)
    requires
        k >= 1,
        n < pow16(k),
    ensures
        hexadecimal(n).len() <= k,
    decreases n,
{
    if n >= 16 {
        let p = pow16((k - 1) as nat);
        assert(n / 16 < p) by (nonlinear_arith)
            requires
                n < 16 * p,
        ;
        if k == 1 {
            assert(p == 1);
        } else {
            lemma_hexadecimal_len_bound(n / 16, (k - 1) as nat);
        }
    }
}

/// Lowercase hexadecimal of `n`, zero-padded to thirty-two digits (as
/// `format!("{:0>32}", format!("{n:02x}"))`).
pub fn u128_to_hex32(n: u128) -> (s: String)
    ensures
        s@ == pad_left(hexadecimal(n as nat), 32, '0'),
{
    let digits = u128_to_hex(n);
    proof {
        assert(pow16(32) == 0x1_0000_0000_0000_0000_0000_0000_0000_0000) by {
            reveal_with_fuel(pow16, 33);
        }
        lemma_hexadecimal_len_bound(n as nat, 32);
        lemma_hexadecimal_len(n as nat);
    }
    let ghost h = hexadecimal(n as nat);
    proof {
        if n < 16 {
            reveal_with_fuel(hexadecimal, 2);
        }
    }
    let mut s = String::new();
    let dv = chars_of(digits.as_str());
    let pad = 32 - dv.len();
    let mut i: usize = 0;
    while i < pad
        invariant
            i <= pad,
            s@ == Seq::new(i as nat, |j: int| '0'),
        decreases pad - i,
    {
        push_char(&mut s, '0');
        assert(s@ =~= Seq::new((i + 1) as nat, |j: int| '0'));
        i = i + 1;
    }
    s.append(digits.as_str());
    proof {
        let p2 = pad_left(h, 2, '0');
        assert(digits@ == p2);
        if h.len() >= 2 {
            assert(p2 == h);
            if h.len() < 32 {
                assert(s@ =~= pad_left(h, 32, '0'));
            } else {
                assert(s@ =~= pad_left(h, 32, '0'));
            }
        } else {
            assert(s@ =~= pad_left(h, 32, '0'));
        }
    }
    s
}

/// Hexadecimal forms of numbers of at least 16 have two or more digits.
pub proof fn lemma_hexadecimal_len(n: nat)
    ensures
        hexadecimal(n).len() >= 1,
        n >= 16 ==> hexadecimal(n).len() >= 2,
    decreases n,
{
    if n >= 16 {
        lemma_hexadecimal_len(n / 16);
    }
}

/// `c` is an ASCII decimal digit.
pub open spec fn is_decimal_digit(c: char) -> bool {
    '0' <= c && c <= '9'
}

/// The value of the decimal digit `c`.
pub open spec fn decimal_digit_value(c: char) -> nat {
    (c as int - '0' as int) as nat
}

/// Every character of `s` is a decimal digit.
pub open spec fn all_decimal_digits(s: Seq<char>) -> bool {
    forall|i: int| 0 <= i < s.len() ==> is_decimal_digit(#[trigger] s[i])
}

/// The value of a string of decimal digits.
pub open spec fn decimal_value(s: Seq<char>) -> nat
    decreases s.len(),
{
    if s.len() == 0 {
        0
    } else {
        decimal_value(s.drop_last()) * 10 + decimal_digit_value(s.last())
    }
}

/// The digits that follow an optional leading `+`.
pub open spec fn unsigned_digits(s: Seq<char>) -> Seq<char> {
    if s.len() > 0 && s[0] == '+' {
        s.drop_first()
    } else {
        s
    }
}

/// What `s.parse::<u128>()` gives: an optional `+` followed by one or more
/// decimal digits whose value fits in a `u128`.
pub open spec fn parse_u128_spec(s: Seq<char>) -> Option<u128> {
    let d = unsigned_digits(s);
    if d.len() > 0 && all_decimal_digits(d) && decimal_value(d) <= u128::MAX {
        Some(decimal_value(d) as u128)
    } else {
        None
    }
}

/// Appending a digit never decreases the value.
pub proof fn lemma_decimal_value_prefix(s: Seq<char>, i: int)
    requires
        0 <= i <= s.len(),
    ensures
        decimal_value(s.subrange(0, i)) <= decimal_value(s),
    decreases s.len() - i,
{
    if i < s.len() {
        lemma_decimal_value_prefix(s, i + 1);
        assert(s.subrange(0, i + 1).drop_last() =~= s.subrange(0, i));
    } else {
        assert(s.subrange(0, i) =~= s);
    }
}

/// Parses an unsigned decimal number (as `s.parse::<u128>().ok()`).
pub fn parse_u128(s: &str) -> (r: Option<u128>)
    ensures
        r == parse_u128_spec(s@),
{
    let v = chars_of(s);
    let mut start: usize = 0;
    if v.len() > 0 && v[0] == '+' {
        start = 1;
    }
    let ghost d = unsigned_digits(s@);
    assert(d =~= v@.skip(start as int));
    if start >= v.len() {
        return None;
    }
    let mut acc: u128 = 0;
    let mut i: usize = start;
    assert(d.subrange(0, 0) =~= Seq::<char>::empty());
    while i < v.len()
        invariant
            start <= i <= v.len(),
            v@ == s@,
            d == unsigned_digits(s@),
            d =~= v@.skip(start as int),
            all_decimal_digits(d.subrange(0, i - start)),
            acc as nat == decimal_value(d.subrange(0, i - start)),
        decreases v.len() - i,
    {
        let c = v[i];
        if !('0' <= c && c <= '9') {
            assert(d[i - start] == c);
            assert(!is_decimal_digit(d[i - start]));
            return None;
        }
        let dv = ((c as u32) - ('0' as u32)) as u128;
        let ghost pre = d.subrange(0, i - start);
        let ghost next = d.subrange(0, i - start + 1);
        assert(next.drop_last() =~= pre);
        assert(next.last() == c);
        if acc > (u128::MAX - dv) / 10 {
            proof {
                lemma_decimal_value_prefix(d, i - start + 1);
                assert(decimal_value(next) == acc * 10 + dv);
                let m = u128::MAX as int;
                let a = acc as int;
                let e = dv as int;
                assert(a * 10 + e > m) by (nonlinear_arith)
                    requires
                        a > (m - e) / 10,
                        0 <= e <= 9,
                        m > 9,
                ;
            }
            return None;
        }
        acc = acc * 10 + dv;
        assert(all_decimal_digits(next));
        i = i + 1;
    }
    assert(d.subrange(0, i - start) =~= d);
    Some(acc)
}

/// What `s.parse::<i32>()` gives: an optional sign followed by one or more
/// decimal digits whose value is in range.
pub open spec fn parse_i32_spec(s: Seq<char>) -> Option<i32> {
    if s.len() > 0 && s[0] == '-' {
        let d = s.drop_first();
        if d.len() > 0 && all_decimal_digits(d) && decimal_value(d) <= 0x8000_0000 {
            Some((-(decimal_value(d) as int)) as i32)
        } else {
            None
        }
    } else {
        match parse_u128_spec(s) {
            Some(v) => if v <= i32::MAX {
                Some(v as i32)
            } else {
                None
            },
            None => None,
        }
    }
}

/// Parses a signed decimal number (as `s.parse::<i32>().ok()`).
pub fn parse_i32(s: &str) -> (r: Option<i32>)
    ensures
        r == parse_i32_spec(s@),
{
    let v = chars_of(s);
    if v.len() > 0 && v[0] == '-' {
        let rest = slice_chars(&v, 1, v.len());
        let ghost d = s@.drop_first();
        assert(rest@ =~= d);
        if rest.len() == 0 || rest[0] == '+' {
            proof {
                if d.len() > 0 {
                    assert(!is_decimal_digit(d[0]));
                }
            }
            return None;
        }
        let text = string_of(&rest);
        match parse_u128(text.as_str()) {
            Some(n) => {
                assert(unsigned_digits(d) == d);
                if n <= 0x8000_0000 {
                    let m: i64 = 0 - (n as i64);
                    Some(m as i32)
                } else {
                    None
                }
            },
            None => {
                assert(unsigned_digits(d) == d);
                None
            },
        }
    } else {
        match parse_u128(s) {
            Some(n) => if n <= 0x7fff_ffff {
                Some(n as i32)
            } else {
                None
            },
            None => None,
        }
    }
}

/// Decimal forms consist of digits, start with a digit, and read back as the
/// number they were made from.
pub proof fn lemma_decimal_roundtrip(n: nat)
    ensures
        decimal(n).len() >= 1,
        all_decimal_digits(decimal(n)),
        decimal_value(decimal(n)) == n,
    decreases n,
{
    lemma_digit_char(n % 10);
    let s = decimal(n);
    if n >= 10 {
        lemma_decimal_roundtrip(n / 10);
        assert(s.drop_last() =~= decimal(n / 10));
        assert(s.last() == digit_char(n % 10));
        assert(decimal_value(s) == (n / 10) * 10 + n % 10);
    } else {
        assert(s.drop_last() =~= Seq::<char>::empty());
        assert(decimal_value(Seq::<char>::empty()) == 0);
        assert(s.last() == digit_char(n));
        assert(decimal_value(s) == n);
    }
}

/// Digit characters below ten are decimal digits with the expected value.
pub proof fn lemma_digit_char(d: nat)
    requires
        d < 10,
    ensures
        is_decimal_digit(digit_char(d)),
        decimal_digit_value(digit_char(d)) == d,
{
    let a = digit_alphabet();
    assert(a[0] == '0' && a[1] == '1' && a[2] == '2' && a[3] == '3' && a[4] == '4');
    assert(a[5] == '5' && a[6] == '6' && a[7] == '7' && a[8] == '8' && a[9] == '9');
}

/// Parsing the decimal form of a number gives the number back.
pub proof fn lemma_parse_decimal(n: u128)
    ensures
        parse_u128_spec(decimal(n as nat)) == Some(n),
{
    lemma_decimal_roundtrip(n as nat);
    let s = decimal(n as nat);
    assert(is_decimal_digit(s[0]));
    assert(unsigned_digits(s) == s);
}


/// `needle` occurs in `hay` at position `i`.
pub open spec fn occurs_at(hay: Seq<char>, needle: Seq<char>, i: int) -> bool {
    0 <= i && i + needle.len() <= hay.len() && hay.subrange(i, i + needle.len()) == needle
}

/// `needle` occurs somewhere in `hay` (the empty sequence occurs everywhere).
pub open spec fn contains_seq(hay: Seq<char>, needle: Seq<char>) -> bool {
    exists|i: int| #[trigger] occurs_at(hay, needle, i)
}

/// `needle` occurs in `hay` at position `i` (executable check).
fn matches_at(hay: &Vec<char>, needle: &Vec<char>, i: usize) -> (r: bool)
    requires
        i + needle.len() <= hay.len(),
    ensures
        r == occurs_at(hay@, needle@, i as int),
{
    let mut j: usize = 0;
    while j < needle.len()
        invariant
            j <= needle.len(),
            i + needle.len() <= hay.len(),
            forall|k: int| 0 <= k < j ==> hay@[i + k] == needle@[k],
        decreases needle.len() - j,
    {
        if hay[i + j] != needle[j] {
            assert(hay@.subrange(i as int, i + needle.len())[j as int] != needle@[j as int]);
            return false;
        }
        j = j + 1;
    }
    assert(hay@.subrange(i as int, i + needle.len()) =~= needle@);
    true
}

/// Whether `needle` occurs in `hay` (as `str::contains`).
pub fn chars_contain(hay: &Vec<char>, needle: &Vec<char>) -> (r: bool)
    ensures
        r == contains_seq(hay@, needle@),
{
    if needle.len() > hay.len() {
        return false;
    }
    let last = hay.len() - needle.len();
    let mut i: usize = 0;
    loop
        invariant
            i <= last,
            last + needle.len() == hay.len(),
            forall|k: int| 0 <= k < i ==> !occurs_at(hay@, needle@, k),
        decreases last - i,
    {
        if matches_at(hay, needle, i) {
            return true;
        }
        if i == last {
            assert forall|k: int| !occurs_at(hay@, needle@, k) by {
                if 0 <= k <= last {
                    assert(k < i || k == i);
                }
            }
            return false;
        }
        i = i + 1;
    }
}

/// Whether `needle` occurs in `hay` (as `str::contains`).
pub fn str_contains(hay: &str, needle: &str) -> (r: bool)
    ensures
        r == contains_seq(hay@, needle@),
{
    let h = chars_of(hay);
    let n = chars_of(needle);
    chars_contain(&h, &n)
}

/// `c` with ASCII upper-case letters mapped to lower case.
pub open spec fn ascii_lower(c: char) -> char {
    if 'A' <= c && c <= 'Z' {
        ((c as u32) + 32) as char
    } else {
        c
    }
}

fn lower_char(c: char) -> (r: char)
    ensures
        r == ascii_lower(c),
{
    if 'A' <= c && c <= 'Z' {
        let n: u8 = (c as u8) + 32;
        n as char
    } else {
        c
    }
}

/// `s` matches the SQL `LIKE` pattern `p`: `%` stands for any run of
/// characters, `_` for any one character, and every other character for
/// itself, ASCII letters compared without regard to case.
pub open spec fn like_match(s: Seq<char>, p: Seq<char>) -> bool
    decreases s.len() + p.len(),
{
    if p.len() == 0 {
        s.len() == 0
    } else if p[0] == '%' {
        like_match(s, p.drop_first()) || (s.len() > 0 && like_match(s.drop_first(), p))
    } else {
        s.len() > 0 && (p[0] == '_' || ascii_lower(s[0]) == ascii_lower(p[0])) && like_match(
            s.drop_first(),
            p.drop_first(),
        )
    }
}

/// One step of [`like_match`] on the suffixes of `s` and `p` from `i` and
/// `j`.
proof fn lemma_like_step(s: Seq<char>, p: Seq<char>, i: int, j: int)
    requires
        0 <= i <= s.len(),
        0 <= j < p.len(),
    ensures
        like_match(s.skip(i), p.skip(j)) == if p[j] == '%' {
            like_match(s.skip(i), p.skip(j + 1)) || (i < s.len() && like_match(s.skip(i + 1), p.skip(j)))
        } else {
            i < s.len() && (p[j] == '_' || ascii_lower(s[i]) == ascii_lower(p[j])) && like_match(
                s.skip(i + 1),
                p.skip(j + 1),
            )
        },
{
    assert(p.skip(j).drop_first() =~= p.skip(j + 1));
    if i < s.len() {
        assert(s.skip(i).drop_first() =~= s.skip(i + 1));
    }
}

/// Whether `s` matches the SQL `LIKE` pattern `p`.
pub fn chars_like(s: &Vec<char>, p: &Vec<char>) -> (r: bool)
    ensures
        r == like_match(s@, p@),
{
    let n = s.len();
    // For the suffix of `p` from `j`: `row[k]` tells whether the suffix of
    // `s` from `k` matches it, and `end` whether the empty suffix does.
    let mut row: Vec<bool> = Vec::new();
    let mut k: usize = 0;
    while k < n
        invariant
            n == s.len(),
            k <= n,
            row.len() == k,
            forall|q: int| 0 <= q < k ==> row@[q] == like_match(s@.skip(q), p@.skip(p.len() as int)),
        decreases n - k,
    {
        assert(p@.skip(p.len() as int).len() == 0);
        row.push(false);
        k = k + 1;
    }
    assert(p@.skip(p.len() as int).len() == 0);
    assert(s@.skip(n as int).len() == 0);
    let mut end = true;
    let mut j: usize = p.len();
    while j > 0
        invariant
            n == s.len(),
            j <= p.len(),
            row.len() == n,
            forall|q: int| 0 <= q < n ==> row@[q] == like_match(s@.skip(q), p@.skip(j as int)),
            end == like_match(s@.skip(n as int), p@.skip(j as int)),
        decreases j,
    {
        let c = p[j - 1];
        proof {
            lemma_like_step(s@, p@, n as int, j - 1);
        }
        let next_end = c == '%' && end;
        let mut next: Vec<bool> = Vec::new();
        let mut q: usize = 0;
        while q < n
            invariant
                q <= n,
                next.len() == q,
            decreases n - q,
        {
            next.push(false);
            q = q + 1;
        }
        let mut i: usize = n;
        while i > 0
            invariant
                n == s.len(),
                0 < j <= p.len(),
                c == p@[j - 1],
                i <= n,
                row.len() == n,
                next.len() == n,
                forall|q: int| 0 <= q < n ==> row@[q] == like_match(s@.skip(q), p@.skip(j as int)),
                end == like_match(s@.skip(n as int), p@.skip(j as int)),
                next_end == like_match(s@.skip(n as int), p@.skip(j - 1)),
                forall|q: int| i <= q < n ==> next@[q] == like_match(s@.skip(q), p@.skip(j - 1)),
            decreases i,
        {
            let k = i - 1;
            proof {
                lemma_like_step(s@, p@, k as int, j - 1);
            }
            let rest = if i == n {
                end
            } else {
                row[i]
            };
            let later = if i == n {
                next_end
            } else {
                next[i]
            };
            let v = if c == '%' {
                row[k] || later
            } else {
                (c == '_' || lower_char(s[k]) == lower_char(c)) && rest
            };
            next.set(k, v);
            i = k;
        }
        row = next;
        end = next_end;
        j = j - 1;
    }
    proof {
        assert(s@.skip(0) =~= s@);
        assert(p@.skip(0) =~= p@);
    }
    if n == 0 {
        end
    } else {
        row[0]
    }
}

/// Whether two strings are equal.
pub fn str_equal(a: &str, b: &str) -> (r: bool)
    ensures
        r == (a@ == b@),
{
    let x = chars_of(a);
    let y = chars_of(b);
    if x.len() != y.len() {
        return false;
    }
    let mut i: usize = 0;
    while i < x.len()
        invariant
            i <= x.len(),
            x.len() == y.len(),
            x@ == a@,
            y@ == b@,
            forall|k: int| 0 <= k < i ==> x@[k] == y@[k],
        decreases x.len() - i,
    {
        if x[i] != y[i] {
            assert(a@[i as int] != b@[i as int]);
            return false;
        }
        i = i + 1;
    }
    assert(x@ =~= y@);
    true
}

/// The first position of `c` in `s`, if any.
pub open spec fn first_index_of(s: Seq<char>, c: char) -> Option<int> {
    if exists|i: int| 0 <= i < s.len() && s[i] == c {
        Some(choose|i: int| 0 <= i < s.len() && s[i] == c && (forall|j: int| 0 <= j < i ==> s[j] != c))
    } else {
        None
    }
}

/// Finds the first position of `c` in `v`.
pub fn find_char(v: &Vec<char>, c: char) -> (r: Option<usize>)
    ensures
        match r {
            Some(i) => i < v.len() && v@[i as int] == c && (forall|j: int| 0 <= j < i ==> v@[j] != c),
            None => forall|j: int| 0 <= j < v.len() ==> v@[j] != c,
        },
        r matches Some(i) ==> first_index_of(v@, c) == Some(i as int),
        r is None ==> first_index_of(v@, c) is None,
{
    let mut i: usize = 0;
    while i < v.len()
        invariant
            i <= v.len(),
            forall|j: int| 0 <= j < i ==> v@[j] != c,
        decreases v.len() - i,
    {
        if v[i] == c {
            proof {
                let k = choose|k: int| 0 <= k < v@.len() && v@[k] == c && (forall|j: int| 0 <= j < k ==> v@[j] != c);
                assert(first_index_of(v@, c) == Some(k));
                assert(!(k < i)) by {
                    if k < i {
                        assert(v@[k] != c);
                    }
                }
                assert(!(i < k)) by {
                    if i < k {
                        assert(v@[i as int] != c);
                    }
                }
            }
            return Some(i);
        }
        i = i + 1;
    }
    None
}

/// A copy of `v[from..to]`.
pub fn slice_chars(v: &Vec<char>, from: usize, to: usize) -> (r: Vec<char>)
    requires
        from <= to <= v.len(),
    ensures
        r@ == v@.subrange(from as int, to as int),
{
    let mut r: Vec<char> = Vec::new();
    let mut i = from;
    while i < to
        invariant
            from <= i <= to,
            to <= v.len(),
            r@ == v@.subrange(from as int, i as int),
        decreases to - i,
    {
        r.push(v[i]);
        i = i + 1;
    }
    r
}

} // verus!
