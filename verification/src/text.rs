//! Character-level helpers shared by relationalization and reification:
//! decimal labels for integers, the label of a byte array, Rust's integer
//! parsing rules, and conversions between `String` and `Vec<char>`.

use vstd::prelude::*;

verus! {

// ---------------------------------------------------------------------------
// Decimal digits
// ---------------------------------------------------------------------------

/// An ASCII decimal digit.
pub open spec fn is_digit(c: char) -> bool {
    '0' <= c && c <= '9'
}

/// The numeric value of an ASCII decimal digit.
pub open spec fn digit_value(c: char) -> nat {
    (c as int - '0' as int) as nat
}

/// The ASCII character for a digit below ten.
pub open spec fn digit_char(d: nat) -> char {
    (d + 48) as char
}

/// The canonical decimal spelling of a natural number: no sign, no leading
/// zero (except for zero itself).
pub open spec fn decimal(n: nat) -> Seq<char>
    decreases n,
{
    if n < 10 {
        seq![digit_char(n)]
    } else {
        decimal(n / 10).push(digit_char(n % 10))
    }
}

/// Rust's `Display` spelling of an integer: a minus sign for negatives.
pub open spec fn signed_decimal(i: int) -> Seq<char> {
    if i < 0 {
        seq!['-'] + decimal((-i) as nat)
    } else {
        decimal(i as nat)
    }
}

/// Every character is a decimal digit.
pub open spec fn all_digits(s: Seq<char>) -> bool {
    forall|i: int| 0 <= i < s.len() ==> #[trigger] is_digit(s[i])
}

/// The value of a string of decimal digits, read left to right.
pub open spec fn digits_value(s: Seq<char>) -> nat
    decreases s.len(),
{
    if s.len() == 0 {
        0
    } else {
        digits_value(s.drop_last()) * 10 + digit_value(s.last())
    }
}

/// Index of the first character of `s` that is not a digit (or `s.len()`).
pub open spec fn digit_run(s: Seq<char>) -> nat
    decreases s.len(),
{
    if s.len() == 0 {
        0
    } else if is_digit(s[0]) {
        1 + digit_run(s.drop_first())
    } else {
        0
    }
}

// ---------------------------------------------------------------------------
// Rust's integer parsing (`str::parse::<iN>` / `str::parse::<uN>`)
// ---------------------------------------------------------------------------

/// The ways `str::parse` can reject an integer, as std's `IntErrorKind`.
#[derive(Debug, Clone, Copy, PartialEq, Eq, Structural)]
pub enum IntError {
    /// The string was empty.
    Empty,
    /// A character was not a digit (or a sign stood alone).
    InvalidDigit,
    /// The value is above the target type's maximum.
    PosOverflow,
    /// The value is below the target type's minimum.
    NegOverflow,
}

/// What `str::parse` returns for `s`, for a target type whose range is
/// `[min, max]` and which accepts a leading `-` exactly when `signed`.
///
/// Digits are read left to right and the first failure wins: an overflow of
/// the digits read so far is reported before a later invalid character.
pub open spec fn parse_int(s: Seq<char>, signed: bool, min: int, max: int) -> Result<int, IntError> {
    if s.len() == 0 {
        Err(IntError::Empty)
    } else if s.len() == 1 && (s[0] == '+' || s[0] == '-') {
        Err(IntError::InvalidDigit)
    } else {
        let negative = signed && s[0] == '-';
        let digits = if s[0] == '+' || negative { s.drop_first() } else { s };
        let k = digit_run(digits);
        let v = digits_value(digits.take(k as int));
        if !negative && v > max {
            Err(IntError::PosOverflow)
        } else if negative && -v < min {
            Err(IntError::NegOverflow)
        } else if k < digits.len() {
            Err(IntError::InvalidDigit)
        } else if negative {
            Ok(-v)
        } else {
            Ok(v as int)
        }
    }
}

/// The message std's `ParseIntError` displays for each kind.
pub open spec fn int_error_message(e: IntError) -> Seq<char> {
    match e {
        IntError::Empty => "cannot parse integer from empty string"@,
        IntError::InvalidDigit => "invalid digit found in string"@,
        IntError::PosOverflow => "number too large to fit in target type"@,
        IntError::NegOverflow => "number too small to fit in target type"@,
    }
}

impl IntError {
    /// The message std's `ParseIntError` displays for this kind.
    pub fn message(&self) -> (m: String)
        ensures
            m@ == int_error_message(*self),
    {
        match self {
            IntError::Empty => String::from_str("cannot parse integer from empty string"),
            IntError::InvalidDigit => String::from_str("invalid digit found in string"),
            IntError::PosOverflow => String::from_str("number too large to fit in target type"),
            IntError::NegOverflow => String::from_str("number too small to fit in target type"),
        }
    }
}

// ---------------------------------------------------------------------------
// Lemmas on decimal spellings
// ---------------------------------------------------------------------------

pub proof fn lemma_decimal_digits(n: nat)
    ensures
        all_digits(decimal(n)),
        decimal(n).len() >= 1,
        digits_value(decimal(n)) == n,
        n > 0 ==> decimal(n)[0] != '0',
    decreases n,
{
    if n < 10 {
        assert(decimal(n) =~= seq![digit_char(n)]);
        assert(digits_value(seq![digit_char(n)].drop_last()) == 0) by {
            assert(seq![digit_char(n)].drop_last() =~= Seq::<char>::empty());
        }
    } else {
        lemma_decimal_digits(n / 10);
        let d = decimal(n / 10);
        assert(decimal(n) == d.push(digit_char(n % 10)));
        assert(d.push(digit_char(n % 10)).drop_last() =~= d);
        assert forall|i: int| 0 <= i < decimal(n).len() implies #[trigger] is_digit(decimal(n)[i]) by {
            if i < d.len() {
                assert(decimal(n)[i] == d[i]);
            }
        }
        assert(n / 10 > 0);
        assert(decimal(n)[0] == d[0]);
    }
}

/// The decimal spelling is injective.
pub proof fn lemma_decimal_injective(a: nat, b: nat)
    requires
        decimal(a) == decimal(b),
    ensures
        a == b,
{
    lemma_decimal_digits(a);
    lemma_decimal_digits(b);
}

pub proof fn lemma_digit_run_all(s: Seq<char>)
    requires
        all_digits(s),
    ensures
        digit_run(s) == s.len(),
    decreases s.len(),
{
    if s.len() > 0 {
        assert(is_digit(s[0]));
        let t = s.drop_first();
        assert forall|i: int| 0 <= i < t.len() implies #[trigger] is_digit(t[i]) by {
            assert(t[i] == s[i + 1]);
        }
        lemma_digit_run_all(t);
    }
}

pub proof fn lemma_digit_run_bound(s: Seq<char>)
    ensures
        digit_run(s) <= s.len(),
        forall|i: int| 0 <= i < digit_run(s) ==> #[trigger] is_digit(s[i]),
        digit_run(s) < s.len() ==> !is_digit(s[digit_run(s) as int]),
    decreases s.len(),
{
    if s.len() > 0 && is_digit(s[0]) {
        let t = s.drop_first();
        lemma_digit_run_bound(t);
        assert forall|i: int| 0 <= i < digit_run(s) implies #[trigger] is_digit(s[i]) by {
            if i > 0 {
                assert(s[i] == t[i - 1]);
            }
        }
        if digit_run(s) < s.len() {
            assert(s[digit_run(s) as int] == t[digit_run(t) as int]);
        }
    }
}

/// Parsing the spelling Rust's `Display` writes for an unsigned integer gives
/// the integer back.
pub proof fn lemma_parse_decimal(n: nat, min: int, max: int)
    requires
        min <= 0,
        n <= max,
    ensures
        parse_int(decimal(n), false, min, max) == Ok::<int, IntError>(n as int),
        parse_int(decimal(n), true, min, max) == Ok::<int, IntError>(n as int),
{
    let s = decimal(n);
    lemma_decimal_digits(n);
    lemma_digit_run_all(s);
    assert(is_digit(s[0]));
    assert(s.take(s.len() as int) =~= s);
}

/// Parsing the spelling Rust's `Display` writes for a signed integer gives
/// the integer back.
pub proof fn lemma_parse_signed_decimal(i: int, min: int, max: int)
    requires
        min <= i <= max,
        min <= 0,
    ensures
        parse_int(signed_decimal(i), true, min, max) == Ok::<int, IntError>(i),
{
    if i >= 0 {
        lemma_parse_decimal(i as nat, min, max);
    } else {
        let m = (-i) as nat;
        let d = decimal(m);
        let s = signed_decimal(i);
        lemma_decimal_digits(m);
        lemma_digit_run_all(d);
        assert(s =~= seq!['-'] + d);
        assert(s.drop_first() =~= d);
        assert(d.take(d.len() as int) =~= d);
        assert(s.len() >= 2);
    }
}

// ---------------------------------------------------------------------------
// String <-> characters
// ---------------------------------------------------------------------------

/// Appends one character to a string (`String::push`).
#[verifier::external_body]
pub(crate) fn push_char(s: &mut String, c: char)
    ensures
        final(s)@ == old(s)@.push(c),
{
    s.push(c);
}

/// The characters of a string, in order.
pub fn chars_of(s: &str) -> (v: Vec<char>)
    ensures
        v@ == s@,
{
    let mut v: Vec<char> = Vec::new();
    for c in it: s.chars()
        invariant
            v@ == it.seq().take(it.index() as int),
            it.seq() == s@,
    {
        v.push(c);
    }
    v
}

/// Appends a run of characters to a string.
pub fn push_chars(s: &mut String, v: &[char])
    ensures
        final(s)@ == old(s)@ + v@,
{
    let ghost start = s@;
    let mut i: usize = 0;
    while i < v.len()
        invariant
            i <= v@.len(),
            s@ == start + v@.take(i as int),
        decreases v.len() - i,
    {
        push_char(s, v[i]);
        assert(v@.take(i as int).push(v@[i as int]) =~= v@.take(i + 1));
        assert(start + v@.take(i + 1) =~= (start + v@.take(i as int)).push(v@[i as int]));
        i = i + 1;
    }
    assert(v@.take(v@.len() as int) =~= v@);
}

/// A string made of the given characters.
pub fn string_of(v: &[char]) -> (s: String)
    ensures
        s@ == v@,
{
    let mut s = String::new();
    push_chars(&mut s, v);
    assert(Seq::<char>::empty() + v@ =~= v@);
    s
}

/// `a` followed by `b`.
pub fn concat(a: &str, b: &str) -> (s: String)
    ensures
        s@ == a@ + b@,
{
    let mut s = String::from_str(a);
    s.append(b);
    s
}

/// Whether two strings hold the same characters.
pub fn same_text(a: &str, b: &str) -> (r: bool)
    ensures
        r == (a@ == b@),
{
    String::from_str(a) == String::from_str(b)
}

// ---------------------------------------------------------------------------
// Formatting integers
// ---------------------------------------------------------------------------

fn digit_of(d: u128) -> (c: char)
    requires
        d < 10,
    ensures
        c == digit_char(d as nat),
{
    let b: u8 = (d as u8) + 48;
    b as char
}

fn push_decimal(s: &mut String, n: u128)
    ensures
        final(s)@ == old(s)@ + decimal(n as nat),
    decreases n,
{
    if n < 10 {
        push_char(s, digit_of(n));
        assert(decimal(n as nat) =~= seq![digit_char(n as nat)]);
        assert(old(s)@.push(digit_char(n as nat)) =~= old(s)@ + seq![digit_char(n as nat)]);
    } else {
        push_decimal(s, n / 10);
        push_char(s, digit_of(n % 10));
        assert(old(s)@ + decimal(n as nat) =~= (old(s)@ + decimal((n / 10) as nat)).push(
            digit_char((n % 10) as nat),
        ));
    }
}

/// Rust's `Display` spelling of an unsigned integer.
pub fn format_unsigned(n: u128) -> (s: String)
    ensures
        s@ == decimal(n as nat),
{
    let mut s = String::new();
    push_decimal(&mut s, n);
    assert(Seq::<char>::empty() + decimal(n as nat) =~= decimal(n as nat));
    s
}

/// Rust's `Display` spelling of a signed integer.
pub fn format_signed(i: i128) -> (s: String)
    ensures
        s@ == signed_decimal(i as int),
{
    if i < 0 {
        let m: u128 = ((-(i + 1)) as u128) + 1;
        let mut s = String::new();
        push_char(&mut s, '-');
        push_decimal(&mut s, m);
        assert(s@ =~= seq!['-'] + decimal(m as nat));
        s
    } else {
        format_unsigned(i as u128)
    }
}

// ---------------------------------------------------------------------------
// Parsing integers
// ---------------------------------------------------------------------------

proof fn lemma_digits_value_push(s: Seq<char>, c: char)
    ensures
        digits_value(s.push(c)) == digits_value(s) * 10 + digit_value(c),
{
    assert(s.push(c).drop_last() =~= s);
}

proof fn lemma_digit_run_take(s: Seq<char>, i: int)
    requires
        0 <= i < s.len(),
    ensures
        s.take(i + 1) =~= s.take(i).push(s[i]),
{
}

/// Reads the digits of `s` from `start` to the first non-digit, and reports
/// how far it got, the value read (when it stays within `bound`), and
/// whether the value read went above `bound`.
fn read_digits(s: &[char], start: usize, bound: u128) -> (r: (usize, u128, bool))
    requires
        start <= s@.len(),
    ensures
        r.0 == start + digit_run(s@.skip(start as int)),
        r.2 == (digits_value(s@.skip(start as int).take(digit_run(s@.skip(start as int)) as int))
            > bound),
        !r.2 ==> r.1 == digits_value(
            s@.skip(start as int).take(digit_run(s@.skip(start as int)) as int),
        ),
{
    let ghost t = s@.skip(start as int);
    proof {
        lemma_digit_run_bound(t);
    }
    let mut i = start;
    let mut m: u128 = 0;
    let mut over = false;
    while i < s.len() && '0' <= s[i] && s[i] <= '9'
        invariant
            start <= i <= s@.len(),
            t == s@.skip(start as int),
            i - start <= digit_run(t),
            digit_run(t) <= t.len(),
            forall|j: int| 0 <= j < digit_run(t) ==> #[trigger] is_digit(t[j]),
            digit_run(t) < t.len() ==> !is_digit(t[digit_run(t) as int]),
            over == (digits_value(t.take(i - start)) > bound),
            !over ==> m == digits_value(t.take(i - start)),
        decreases s@.len() - i,
    {
        let ghost k: int = i - start;
        assert(t[k] == s@[i as int]);
        proof {
            if k >= digit_run(t) as int {
                assert(k == digit_run(t) as int);
                assert(false);
            }
            lemma_digit_run_take(t, k);
            lemma_digits_value_push(t.take(k), t[k]);
        }
        let d: u128 = (s[i] as u32 - 48) as u128;
        assert(d == digit_value(t[k]));
        if !over {
            if d <= bound && m <= (bound - d) / 10 {
                assert(m * 10 + d <= bound) by (nonlinear_arith)
                    requires
                        m <= (bound - d) / 10,
                        d <= bound,
                ;
                m = m * 10 + d;
            } else {
                assert(m * 10 + d > bound) by (nonlinear_arith)
                    requires
                        d > bound || m > (bound - d) / 10,
                        d < 10,
                        m <= bound,
                ;
                over = true;
            }
        }
        i = i + 1;
    }
    proof {
        if i - start < digit_run(t) {
            assert(i < s@.len());
            assert(is_digit(t[i - start]));
            assert(t[i - start] == s@[i as int]);
        }
    }
    (i, m, over)
}

/// Parses `s` as Rust's `str::parse` parses an unsigned integer no larger
/// than `max`.
pub fn parse_unsigned(s: &[char], max: u128) -> (r: Result<u128, IntError>)
    ensures
        match r {
            Ok(v) => parse_int(s@, false, 0, max as int) == Ok::<int, IntError>(v as int),
            Err(e) => parse_int(s@, false, 0, max as int) == Err::<int, IntError>(e),
        },
{
    if s.len() == 0 {
        return Err(IntError::Empty);
    }
    if s.len() == 1 && (s[0] == '+' || s[0] == '-') {
        return Err(IntError::InvalidDigit);
    }
    let start: usize = if s[0] == '+' { 1 } else { 0 };
    assert(start == 0 ==> s@.skip(0) =~= s@);
    let (end, v, over) = read_digits(s, start, max);
    if over {
        return Err(IntError::PosOverflow);
    }
    if end < s.len() {
        return Err(IntError::InvalidDigit);
    }
    Ok(v)
}

/// Parses `s` as Rust's `str::parse` parses a signed integer in
/// `[min, max]`.
pub fn parse_signed(s: &[char], min: i128, max: i128) -> (r: Result<i128, IntError>)
    requires
        min <= 0 <= max,
    ensures
        match r {
            Ok(v) => parse_int(s@, true, min as int, max as int) == Ok::<int, IntError>(v as int),
            Err(e) => parse_int(s@, true, min as int, max as int) == Err::<int, IntError>(e),
        },
{
    if s.len() == 0 {
        return Err(IntError::Empty);
    }
    if s.len() == 1 && (s[0] == '+' || s[0] == '-') {
        return Err(IntError::InvalidDigit);
    }
    let negative = s[0] == '-';
    let start: usize = if s[0] == '+' || negative { 1 } else { 0 };
    assert(start == 0 ==> s@.skip(0) =~= s@);
    if negative {
        let bound: u128 = if min < 0 { ((-(min + 1)) as u128) + 1 } else { 0 };
        let (end, v, over) = read_digits(s, start, bound);
        if over {
            return Err(IntError::NegOverflow);
        }
        if end < s.len() {
            return Err(IntError::InvalidDigit);
        }
        assert(v <= bound);
        let r: i128 = if v == 0 { 0 } else { -(((v - 1) as i128)) - 1 };
        Ok(r)
    } else {
        let (end, v, over) = read_digits(s, start, max as u128);
        if over {
            return Err(IntError::PosOverflow);
        }
        if end < s.len() {
            return Err(IntError::InvalidDigit);
        }
        Ok(v as i128)
    }
}

// ---------------------------------------------------------------------------
// Whitespace and commas
// ---------------------------------------------------------------------------

/// Unicode's `White_Space` property, as `char::is_whitespace` tests it.
pub open spec fn is_space(c: char) -> bool {
    let u = c as u32;
    ||| 0x9 <= u <= 0xd
    ||| u == 0x20
    ||| u == 0x85
    ||| u == 0xa0
    ||| u == 0x1680
    ||| 0x2000 <= u <= 0x200a
    ||| u == 0x2028
    ||| u == 0x2029
    ||| u == 0x202f
    ||| u == 0x205f
    ||| u == 0x3000
}

/// `s` without its leading whitespace.
pub open spec fn trim_start(s: Seq<char>) -> Seq<char>
    decreases s.len(),
{
    if s.len() > 0 && is_space(s[0]) {
        trim_start(s.drop_first())
    } else {
        s
    }
}

/// `s` without its trailing whitespace.
pub open spec fn trim_end(s: Seq<char>) -> Seq<char>
    decreases s.len(),
{
    if s.len() > 0 && is_space(s.last()) {
        trim_end(s.drop_last())
    } else {
        s
    }
}

/// `s` without whitespace at either end (`str::trim`).
pub open spec fn trim(s: Seq<char>) -> Seq<char> {
    trim_end(trim_start(s))
}

/// The pieces of `s` between commas (`str::split(',')`): one more piece
/// than there are commas.
pub open spec fn split_commas(s: Seq<char>) -> Seq<Seq<char>>
    decreases s.len(),
{
    if s.len() == 0 {
        seq![Seq::empty()]
    } else {
        let prev = split_commas(s.drop_last());
        if s.last() == ',' {
            prev.push(Seq::empty())
        } else {
            prev.update(prev.len() - 1, prev.last().push(s.last()))
        }
    }
}

pub fn is_space_char(c: char) -> (r: bool)
    ensures
        r == is_space(c),
{
    let u = c as u32;
    (0x9 <= u && u <= 0xd) || u == 0x20 || u == 0x85 || u == 0xa0 || u == 0x1680 || (0x2000 <= u
        && u <= 0x200a) || u == 0x2028 || u == 0x2029 || u == 0x202f || u == 0x205f || u == 0x3000
}

/// The bounds `[a, b)` of `trim(s[lo..hi])` within `s`.
pub fn trim_bounds(s: &Vec<char>, lo: usize, hi: usize) -> (r: (usize, usize))
    requires
        lo <= hi <= s@.len(),
    ensures
        lo <= r.0 <= r.1 <= hi,
        s@.subrange(r.0 as int, r.1 as int) == trim(s@.subrange(lo as int, hi as int)),
{
    let mut a = lo;
    while a < hi && is_space_char(s[a])
        invariant
            lo <= a <= hi <= s@.len(),
            trim_start(s@.subrange(lo as int, hi as int)) == trim_start(s@.subrange(a as int, hi as int)),
        decreases hi - a,
    {
        assert(s@.subrange(a as int, hi as int).drop_first() =~= s@.subrange(a + 1, hi as int));
        a = a + 1;
    }
    let ghost t = s@.subrange(a as int, hi as int);
    assert(trim_start(t) == t);
    let mut b = hi;
    assert(s@.subrange(a as int, b as int) =~= t);
    while b > a && is_space_char(s[b - 1])
        invariant
            lo <= a <= b <= hi <= s@.len(),
            t == s@.subrange(a as int, hi as int),
            trim_end(t) == trim_end(s@.subrange(a as int, b as int)),
        decreases b - a,
    {
        assert(s@.subrange(a as int, b as int).drop_last() =~= s@.subrange(a as int, b - 1));
        b = b - 1;
    }
    (a, b)
}

/// The characters `s[a..b]`.
pub fn slice_chars(s: &Vec<char>, a: usize, b: usize) -> (r: Vec<char>)
    requires
        a <= b <= s@.len(),
    ensures
        r@ == s@.subrange(a as int, b as int),
{
    let mut r: Vec<char> = Vec::new();
    let mut i = a;
    while i < b
        invariant
            a <= i <= b <= s@.len(),
            r@ == s@.subrange(a as int, i as int),
        decreases b - i,
    {
        r.push(s[i]);
        assert(r@ =~= s@.subrange(a as int, i + 1));
        i = i + 1;
    }
    r
}

pub proof fn lemma_split_commas_prefix(s: Seq<char>, i: int)
    requires
        0 <= i <= s.len(),
    ensures
        split_commas(s.take(i)).len() >= 1,
        split_commas(s.take(i)).len() <= split_commas(s).len(),
        forall|j: int|
            0 <= j < split_commas(s.take(i)).len() - 1 ==> #[trigger] split_commas(s.take(i))[j]
                == split_commas(s)[j],
    decreases s.len(),
{
    lemma_split_commas_len(s.take(i));
    if i == s.len() {
        assert(s.take(i) =~= s);
    } else {
        assert(s.take(i) =~= s.drop_last().take(i));
        lemma_split_commas_prefix(s.drop_last(), i);
        lemma_split_commas_len(s.drop_last());
    }
}

pub proof fn lemma_split_commas_len(s: Seq<char>)
    ensures
        split_commas(s).len() >= 1,
    decreases s.len(),
{
    if s.len() > 0 {
        lemma_split_commas_len(s.drop_last());
    }
}

pub proof fn lemma_split_commas_join(a: Seq<char>, c: Seq<char>)
    ensures
        split_commas(a + seq![','] + c) == split_commas(a) + split_commas(c),
    decreases c.len(),
{
    let x = a + seq![','] + c;
    lemma_split_commas_len(a);
    if c.len() == 0 {
        assert(x.drop_last() =~= a);
        assert(split_commas(a).push(Seq::empty()) =~= split_commas(a) + seq![Seq::<char>::empty()]);
    } else {
        assert(x.drop_last() =~= a + seq![','] + c.drop_last());
        lemma_split_commas_join(a, c.drop_last());
        lemma_split_commas_len(c.drop_last());
        let sa = split_commas(a);
        let sc = split_commas(c.drop_last());
        if c.last() == ',' {
            assert((sa + sc).push(Seq::empty()) =~= sa + sc.push(Seq::empty()));
        } else {
            assert((sa + sc).update((sa + sc).len() - 1, (sa + sc).last().push(c.last())) =~= sa
                + sc.update(sc.len() - 1, sc.last().push(c.last())));
        }
    }
}

pub proof fn lemma_split_commas_single(a: Seq<char>)
    requires
        forall|i: int| 0 <= i < a.len() ==> a[i] != ',',
    ensures
        split_commas(a) == seq![a],
    decreases a.len(),
{
    if a.len() > 0 {
        assert forall|i: int| 0 <= i < a.drop_last().len() implies a.drop_last()[i] != ',' by {
            assert(a.drop_last()[i] == a[i]);
        }
        lemma_split_commas_single(a.drop_last());
        assert(a.last() != ',');
        assert(a.drop_last().push(a.last()) =~= a);
        assert(seq![a.drop_last()].update(0, a.drop_last().push(a.last())) =~= seq![a]);
    } else {
        assert(a =~= Seq::<char>::empty());
    }
}

} // verus!
