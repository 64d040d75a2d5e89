//! Text: comparing letters whatever their case, and numbers as text.
use vstd::prelude::*;
use vstd::string::StringExecFns;


verus! {

/// An ASCII letter in lower case.
pub open spec fn lower(b: u8) -> u8 {
    if 65 <= b <= 90 {
        (b + 32) as u8
    } else {
        b
    }
}

/// An ASCII letter in lower case.
pub open spec fn lower_char(c: char) -> char {
    if 'A' <= c <= 'Z' {
        ((c as u32 + 32) as u32) as char
    } else {
        c
    }
}

/// Whether bytes are the same but for the case of ASCII letters.
pub open spec fn same_bytes(a: Seq<u8>, b: Seq<u8>) -> bool {
    a.len() == b.len() && forall|i: int| 0 <= i < a.len() ==> lower(#[trigger] a[i]) == lower(b[i])
}

/// Whether texts are the same but for the case of ASCII letters.
pub open spec fn same_name(a: Seq<char>, b: Seq<char>) -> bool {
    a.len() == b.len() && forall|i: int|
        0 <= i < a.len() ==> lower_char(#[trigger] a[i]) == lower_char(b[i])
}

fn lower_of(b: u8) -> (r: u8)
    ensures
        r == lower(b),
{
    if 65 <= b && b <= 90 {
        b + 32
    } else {
        b
    }
}

/// Whether bytes are the same but for the case of ASCII letters.
pub fn bytes_match(a: &[u8], b: &[u8]) -> (r: bool)
    ensures
        r == same_bytes(a@, b@),
{
    if a.len() != b.len() {
        return false;
    }
    let mut i: usize = 0;
    while i < a.len()
        invariant
            i <= a.len(),
            a@.len() == b@.len(),
            forall|j: int| 0 <= j < i ==> lower(#[trigger] a@[j]) == lower(b@[j]),
        decreases a.len() - i,
    {
        if lower_of(a[i]) != lower_of(b[i]) {
            return false;
        }
        i = i + 1;
    }
    true
}

/// Whether a character is the other one in lower case, both being letters.
fn upper_of(c: char, d: char) -> (r: bool)
    ensures
        r == (lower_char(c) == lower_char(d)),
{
    let x: u32 = c as u32;
    let y: u32 = d as u32;
    let lx: u32 = if 65 <= x && x <= 90 {
        x + 32
    } else {
        x
    };
    let ly: u32 = if 65 <= y && y <= 90 {
        y + 32
    } else {
        y
    };
    lx == ly
}

/// Whether texts are the same but for the case of ASCII letters.
pub fn names_match(a: &str, b: &str) -> (r: bool)
    ensures
        r == same_name(a@, b@),
{
    let n: usize = a.unicode_len();
    if n != b.unicode_len() {
        return false;
    }
    let mut i: usize = 0;
    while i < n
        invariant
            i <= n,
            n == a@.len(),
            n == b@.len(),
            forall|j: int| 0 <= j < i ==> lower_char(#[trigger] a@[j]) == lower_char(b@[j]),
        decreases n - i,
    {
        if !upper_of(a.get_char(i), b.get_char(i)) {
            return false;
        }
        i = i + 1;
    }
    true
}

/// Names match in both directions.
pub proof fn same_name_symmetric(a: Seq<char>, b: Seq<char>)
    ensures
        same_name(a, b) == same_name(b, a),
{
    if same_name(a, b) {
        assert forall|i: int| 0 <= i < b.len() implies lower_char(#[trigger] b[i]) == lower_char(
            a[i],
        ) by {
            assert(lower_char(a[i]) == lower_char(b[i]));
        }
    }
    if same_name(b, a) {
        assert forall|i: int| 0 <= i < a.len() implies lower_char(#[trigger] a[i]) == lower_char(
            b[i],
        ) by {
            assert(lower_char(b[i]) == lower_char(a[i]));
        }
    }
}

// -- Numbers as text -------------------------------------------

/// The digit of a number below ten.
pub open spec fn digit(n: nat) -> char {
    ((48 + n % 10) as u32) as char
}

/// A number in decimal.
pub open spec fn decimal(n: nat) -> Seq<char>
    decreases n,
{
    if n < 10 {
        seq![digit(n)]
    } else {
        decimal(n / 10).push(digit(n))
    }
}

/// A number in decimal, with a sign where it is negative.
pub open spec fn signed_decimal(n: int) -> Seq<char> {
    if n < 0 {
        seq!['-'] + decimal((-n) as nat)
    } else {
        decimal(n as nat)
    }
}

fn digit_text(n: u64) -> (r: &'static str)
    requires
        n < 10,
    ensures
        r@ == seq![digit(n as nat)],
{
    proof {
        reveal_strlit("0");
        reveal_strlit("1");
        reveal_strlit("2");
        reveal_strlit("3");
        reveal_strlit("4");
        reveal_strlit("5");
        reveal_strlit("6");
        reveal_strlit("7");
        reveal_strlit("8");
        reveal_strlit("9");
    }
    let r: &'static str = match n {
        0 => "0",
        1 => "1",
        2 => "2",
        3 => "3",
        4 => "4",
        5 => "5",
        6 => "6",
        7 => "7",
        8 => "8",
        _ => "9",
    };
    assert(r@ =~= seq![digit(n as nat)]);
    r
}

/// Adds a number in decimal to a text.
pub fn push_decimal(s: &mut String, n: u64)
    ensures
        final(s)@ == old(s)@ + decimal(n as nat),
    decreases n,
{
    let ghost before = s@;
    if n >= 10 {
        push_decimal(s, n / 10);
        s.append(digit_text(n % 10));
        proof {
            assert(digit((n % 10) as nat) == digit(n as nat));
            assert(s@ =~= before + decimal(n as nat));
        }
    } else {
        s.append(digit_text(n));
        assert(s@ =~= before + decimal(n as nat));
    }
}

/// Adds a number in decimal, with its sign, to a text.
pub fn push_signed(s: &mut String, n: i64)
    ensures
        final(s)@ == old(s)@ + signed_decimal(n as int),
{
    let ghost before = s@;
    if n < 0 {
        proof {
            reveal_strlit("-");
        }
        s.append("-");
        if n == i64::MIN {
            push_decimal(s, 0x8000_0000_0000_0000);
        } else {
            push_decimal(s, (-n) as u64);
        }
        assert(s@ =~= before + signed_decimal(n as int));
    } else {
        push_decimal(s, n as u64);
    }
}

/// Whether a character is a decimal digit.
pub open spec fn is_digit(c: char) -> bool {
    '0' <= c <= '9'
}

/// Whether characters are decimal digits.
pub open spec fn all_digits(s: Seq<char>) -> bool {
    forall|i: int| 0 <= i < s.len() ==> is_digit(#[trigger] s[i])
}

/// The number that digits are in decimal.
pub open spec fn value_of(s: Seq<char>) -> nat
    decreases s.len(),
{
    if s.len() == 0 {
        0
    } else {
        value_of(s.drop_last()) * 10 + ((s.last() as u32) - 48) as nat
    }
}

/// Whether a text starts with a sign.
pub open spec fn has_sign(s: Seq<char>) -> bool {
    s.len() > 0 && (s[0] == '-' || s[0] == '+')
}

/// The digits behind a sign.
pub open spec fn unsigned(s: Seq<char>) -> Seq<char> {
    if has_sign(s) {
        s.skip(1)
    } else {
        s
    }
}

/// The integer that a text is: digits, with a sign or without, where it can be
/// held in 64 bits.
pub open spec fn integer_of(s: Seq<char>) -> Option<i64> {
    let d = unsigned(s);
    let n = if has_sign(s) && s[0] == '-' {
        -(value_of(d) as int)
    } else {
        value_of(d) as int
    };
    if d.len() > 0 && all_digits(d) && i64::MIN <= n <= i64::MAX {
        Some(n as i64)
    } else {
        None
    }
}

proof fn value_grows(s: Seq<char>, k: int)
    requires
        0 <= k <= s.len(),
        all_digits(s),
    ensures
        value_of(s.take(k)) <= value_of(s),
    decreases s.len(),
{
    if k < s.len() {
        let d = s.drop_last();
        assert forall|i: int| 0 <= i < d.len() implies is_digit(#[trigger] d[i]) by {
            assert(d[i] == s[i]);
        }
        value_grows(d, k);
        assert(d.take(k) =~= s.take(k));
    } else {
        assert(s.take(k) =~= s);
    }
}

/// Reads an integer.
pub fn parse_integer(s: &str) -> (r: Option<i64>)
    ensures
        r == integer_of(s@),
{
    let n: usize = s.unicode_len();
    if n == 0 {
        return None;
    }
    let first: char = s.get_char(0);
    let signed = first == '-' || first == '+';
    let negative = first == '-';
    let start: usize = if signed {
        1
    } else {
        0
    };
    if start == n {
        return None;
    }
    let ghost d = unsigned(s@);
    let limit: u64 = 0x8000_0000_0000_0000;
    let mut i: usize = start;
    let mut v: u64 = 0;
    while i < n
        invariant
            n == s@.len(),
            start <= i <= n,
            start <= 1,
            d == unsigned(s@),
            d.len() == n - start,
            forall|j: int| 0 <= j < d.len() ==> #[trigger] d[j] == s@[j + start],
            limit == 0x8000_0000_0000_0000,
            v <= limit,
            all_digits(d.take(i - start)),
            v == value_of(d.take(i - start)),
            i64::MAX as int + 1 == limit,
            i64::MIN as int == -(limit as int),
        decreases n - i,
    {
        let c: char = s.get_char(i);
        let ghost k = i - start;
        assert(d[k] == c);
        let x: u32 = c as u32;
        if x < 48 || x > 57 {
            assert(!is_digit(d[k]));
            assert(!all_digits(d));
            return None;
        }
        let y: u64 = (x - 48) as u64;
        assert(d.take(k + 1).drop_last() =~= d.take(k));
        assert(d.take(k + 1).last() == c);
        proof {
            assert forall|j: int| 0 <= j < k + 1 implies is_digit(#[trigger] d.take(k + 1)[j]) by {
                if j < k {
                    assert(d.take(k)[j] == d.take(k + 1)[j]);
                }
            }
        }
        if v > (limit - y) / 10 {
            proof {
                if all_digits(d) {
                    value_grows(d, k + 1);
                }
            }
            return None;
        }
        v = v * 10 + y;
        i = i + 1;
    }
    assert(d.take(n - start) =~= d);
    if negative {
        if v == limit {
            Some(i64::MIN)
        } else {
            Some(-(v as i64))
        }
    } else if v == limit {
        None
    } else {
        Some(v as i64)
    }
}

// -- Reals -----------------------------------------------------

/// How many digits a text has from place `i` on.
pub open spec fn digits_from(s: Seq<char>, i: int) -> int
    decreases s.len() - i,
{
    if 0 <= i < s.len() && is_digit(s[i]) {
        1 + digits_from(s, i + 1)
    } else {
        0
    }
}

/// Where an exponent that starts at place `i` ends; at `i` where there is none.
pub open spec fn exponent_end(s: Seq<char>, i: int) -> int {
    if i < s.len() && (s[i] == 'e' || s[i] == 'E') {
        let j = if i + 1 < s.len() && (s[i + 1] == '-' || s[i + 1] == '+') {
            i + 2
        } else {
            i + 1
        };
        if digits_from(s, j) > 0 {
            j + digits_from(s, j)
        } else {
            i
        }
    } else {
        i
    }
}

/// Whether a text is a decimal fraction: digits with a point before, between or
/// behind them, with or without a sign and an exponent.
pub open spec fn is_fraction(s: Seq<char>) -> bool {
    let start: int = if has_sign(s) {
        1
    } else {
        0
    };
    let a = digits_from(s, start);
    let p = start + a;
    let b = digits_from(s, p + 1);
    &&& p < s.len()
    &&& s[p] == '.'
    &&& a + b > 0
    &&& exponent_end(s, p + 1 + b) == s.len()
}

fn count_digits(s: &str, i: usize, n: usize) -> (r: usize)
    requires
        n == s@.len(),
        i <= n,
    ensures
        r == digits_from(s@, i as int),
        i + r <= n,
    decreases n - i,
{
    if i < n {
        let c: u32 = s.get_char(i) as u32;
        if 48 <= c && c <= 57 {
            return 1 + count_digits(s, i + 1, n);
        }
    }
    0
}

/// Whether a text is a decimal fraction.
pub fn fraction(s: &str) -> (r: bool)
    ensures
        r == is_fraction(s@),
{
    let n: usize = s.unicode_len();
    let mut start: usize = 0;
    if n > 0 {
        let c: char = s.get_char(0);
        if c == '-' || c == '+' {
            start = 1;
        }
    }
    let a: usize = count_digits(s, start, n);
    let p: usize = start + a;
    if p >= n || s.get_char(p) != '.' {
        return false;
    }
    let b: usize = count_digits(s, p + 1, n);
    if a == 0 && b == 0 {
        return false;
    }
    let e: usize = p + 1 + b;
    if e == n {
        return true;
    }
    let c: char = s.get_char(e);
    if c != 'e' && c != 'E' {
        return false;
    }
    let mut j: usize = e + 1;
    if j < n {
        let d: char = s.get_char(j);
        if d == '-' || d == '+' {
            j = j + 1;
        }
    }
    let k: usize = count_digits(s, j, n);
    k > 0 && j + k == n
}

/// Whether a character occurs in a text.
pub fn has_point(s: &str) -> (r: bool)
    ensures
        r == s@.contains('.'),
{
    let n: usize = s.unicode_len();
    let mut i: usize = 0;
    while i < n
        invariant
            n == s@.len(),
            i <= n,
            forall|j: int| 0 <= j < i ==> #[trigger] s@[j] != '.',
        decreases n - i,
    {
        if s.get_char(i) == '.' {
            assert(s@[i as int] == '.');
            return true;
        }
        i = i + 1;
    }
    false
}

/// Whether a text is made of digits and points.
pub open spec fn is_numeral(s: Seq<char>) -> bool {
    forall|i: int| 0 <= i < s.len() ==> is_digit(#[trigger] s[i]) || s[i] == '.'
}

/// Where the zeros before place `n` start.
pub open spec fn zeros_start(s: Seq<char>, n: int) -> int
    decreases n,
{
    if 0 < n <= s.len() && s[n - 1] == '0' {
        zeros_start(s, n - 1)
    } else {
        n
    }
}

/// Where the zeros from place `i` on end.
pub open spec fn zeros_end(s: Seq<char>, i: int) -> int
    decreases s.len() - i,
{
    if 0 <= i < s.len() && s[i] == '0' {
        zeros_end(s, i + 1)
    } else {
        i
    }
}

/// A decimal fraction as it is shown: without zeros at its end, without a point there,
/// and with no zeros before its first digit but one before a point. Signs and exponents
/// stay as they are.
pub open spec fn shortened(s: Seq<char>) -> Seq<char> {
    let n = zeros_start(s, s.len() as int);
    let k = if n > 0 && s[n - 1] == '.' {
        n - 1
    } else {
        n
    };
    let z = zeros_end(s, 0);
    if !is_numeral(s) || !s.contains('.') {
        s
    } else if z >= k {
        seq!['0']
    } else if s[z] == '.' {
        seq!['0'] + s.subrange(z, k)
    } else {
        s.subrange(z, k)
    }
}

/// A decimal fraction as it is shown.
pub fn shorten(s: &str) -> (r: String)
    ensures
        r@ == shortened(s@),
{
    let n: usize = s.unicode_len();
    if !has_point(s) {
        return String::from_str(s);
    }
    let mut i: usize = 0;
    while i < n
        invariant
            n == s@.len(),
            i <= n,
            forall|j: int| 0 <= j < i ==> is_digit(#[trigger] s@[j]) || s@[j] == '.',
        decreases n - i,
    {
        let c: char = s.get_char(i);
        let digit: bool = '0' <= c && c <= '9';
        if c != '.' && !digit {
            assert(!is_digit(s@[i as int]) && s@[i as int] != '.');
            return String::from_str(s);
        }
        i = i + 1;
    }
    let mut k: usize = n;
    let mut more = true;
    while more && k > 0
        invariant
            n == s@.len(),
            k <= n,
            zeros_start(s@, n as int) == zeros_start(s@, k as int),
            !more ==> k > 0 && s@[k - 1] != '0',
        decreases k + (if more {
            1int
        } else {
            0int
        }),
    {
        if s.get_char(k - 1) == '0' {
            k = k - 1;
        } else {
            more = false;
        }
    }
    assert(zeros_start(s@, n as int) == k);
    if k > 0 && s.get_char(k - 1) == '.' {
        k = k - 1;
    }
    let mut z: usize = 0;
    let mut more = true;
    while more && z < n
        invariant
            n == s@.len(),
            z <= n,
            zeros_end(s@, 0) == zeros_end(s@, z as int),
            !more ==> z < n && s@[z as int] != '0',
        decreases n - z + (if more {
            1int
        } else {
            0int
        }),
    {
        if s.get_char(z) == '0' {
            z = z + 1;
        } else {
            more = false;
        }
    }
    assert(zeros_end(s@, 0) == z);
    proof {
        reveal_strlit("0");
        assert("0"@ =~= seq!['0']);
    }
    if z >= k {
        return String::from_str("0");
    }
    if s.get_char(z) == '.' {
        let mut r = String::from_str("0");
        r.append(s.substring_char(z, k));
        return r;
    }
    String::from_str(s.substring_char(z, k))
}

/// A text put together of three.
pub fn join3(a: &str, b: &str, c: &str) -> (r: String)
    ensures
        r@ == a@ + b@ + c@,
{
    let mut s = String::from_str(a);
    s.append(b);
    s.append(c);
    s
}

} // verus!
