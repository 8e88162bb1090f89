//! Text: white space, trimming, decimal and hexadecimal numerals, and the
//! passage between bytes and characters.
use crate::bytes::equal;
use vstd::prelude::*;
use vstd::string::*;
use vstd::utf8::{decode_utf8, encode_scalar, encode_utf8, has_width_1_encoding, valid_utf8};

verus! {

/// The characters with the Unicode `White_Space` property.
pub open spec fn is_white_space(c: char) -> bool {
    ||| 0x9 <= c as u32 <= 0xd
    ||| c as u32 == 0x20
    ||| c as u32 == 0x85
    ||| c as u32 == 0xa0
    ||| c as u32 == 0x1680
    ||| 0x2000 <= c as u32 <= 0x200a
    ||| c as u32 == 0x2028
    ||| c as u32 == 0x2029
    ||| c as u32 == 0x202f
    ||| c as u32 == 0x205f
    ||| c as u32 == 0x3000
}

/// Whether `c` is white space.
pub fn white_space(c: char) -> (r: bool)
    ensures
        r == is_white_space(c),
{
    let u: u32 = c as u32;
    (0x9 <= u && u <= 0xd) || u == 0x20 || u == 0x85 || u == 0xa0 || u == 0x1680 || (0x2000 <= u
        && u <= 0x200a) || u == 0x2028 || u == 0x2029 || u == 0x202f || u == 0x205f || u == 0x3000
}

/// `s` without the white space it begins with.
pub open spec fn trim_start(s: Seq<char>) -> Seq<char>
    decreases s.len(),
{
    if s.len() > 0 && is_white_space(s.first()) {
        trim_start(s.drop_first())
    } else {
        s
    }
}

/// `s` without the white space it ends with.
pub open spec fn trim_end(s: Seq<char>) -> Seq<char>
    decreases s.len(),
{
    if s.len() > 0 && is_white_space(s.last()) {
        trim_end(s.drop_last())
    } else {
        s
    }
}

/// `s` without the white space at its two ends.
pub open spec fn trimmed(s: Seq<char>) -> Seq<char> {
    trim_end(trim_start(s))
}

proof fn lemma_trim_start(s: Seq<char>, k: int)
    requires
        0 <= k <= s.len(),
        forall|i: int| 0 <= i < k ==> is_white_space(#[trigger] s[i]),
        k < s.len() ==> !is_white_space(s[k]),
    ensures
        trim_start(s) == s.skip(k),
    decreases s.len(),
{
    if k > 0 {
        assert(is_white_space(s[0]));
        assert forall|i: int| 0 <= i < k - 1 implies is_white_space(#[trigger] s.drop_first()[i]) by {
            assert(is_white_space(s[i + 1]));
        }
        lemma_trim_start(s.drop_first(), k - 1);
        assert(s.drop_first().skip(k - 1) =~= s.skip(k));
    } else {
        assert(s.skip(0) =~= s);
    }
}

proof fn lemma_trim_end(s: Seq<char>, k: int)
    requires
        0 <= k <= s.len(),
        forall|i: int| k <= i < s.len() ==> is_white_space(#[trigger] s[i]),
        k > 0 ==> !is_white_space(s[k - 1]),
    ensures
        trim_end(s) == s.take(k),
    decreases s.len(),
{
    if k < s.len() {
        assert(is_white_space(s[s.len() - 1]));
        assert forall|i: int| k <= i < s.len() - 1 implies is_white_space(#[trigger] s.drop_last()[i]) by {
            assert(is_white_space(s[i]));
        }
        lemma_trim_end(s.drop_last(), k);
        assert(s.drop_last().take(k) =~= s.take(k));
    } else {
        assert(s.take(k) =~= s);
    }
}

/// What trimming takes off is white space at the two ends, and all of it:
/// between them the text is as it was, and neither begins nor ends with white
/// space.
pub proof fn lemma_trimmed(s: Seq<char>) -> (cut: (int, int))
    ensures
        0 <= cut.0 <= cut.1 <= s.len(),
        trimmed(s) == s.subrange(cut.0, cut.1),
        forall|i: int| 0 <= i < cut.0 || cut.1 <= i < s.len() ==> is_white_space(#[trigger] s[i]),
        cut.0 < cut.1 ==> !is_white_space(s[cut.0]) && !is_white_space(s[cut.1 - 1]),
{
    let t = trim_start(s);
    let a = lemma_trim_start_cut(s);
    let b = lemma_trim_end_cut(t);
    assert(trimmed(s) =~= s.subrange(a, a + b));
    assert forall|i: int| 0 <= i < a || a + b <= i < s.len() implies is_white_space(#[trigger] s[i]) by {
        if a + b <= i {
            assert(s[i] == t[i - a]);
        }
    }
    (a, a + b)
}

proof fn lemma_trim_start_cut(s: Seq<char>) -> (k: int)
    ensures
        0 <= k <= s.len(),
        trim_start(s) == s.skip(k),
        forall|i: int| 0 <= i < k ==> is_white_space(#[trigger] s[i]),
        k < s.len() ==> !is_white_space(s[k]),
    decreases s.len(),
{
    if s.len() > 0 && is_white_space(s.first()) {
        let k = lemma_trim_start_cut(s.drop_first());
        assert(s.drop_first().skip(k) =~= s.skip(k + 1));
        assert forall|i: int| 0 <= i < k + 1 implies is_white_space(#[trigger] s[i]) by {
            if i > 0 {
                assert(s[i] == s.drop_first()[i - 1]);
            }
        }
        k + 1
    } else {
        assert(s.skip(0) =~= s);
        0
    }
}

/// What trimming takes off the end is white space, and all of it.
pub proof fn lemma_trim_end_cut(s: Seq<char>) -> (k: int)
    ensures
        0 <= k <= s.len(),
        trim_end(s) == s.take(k),
        forall|i: int| k <= i < s.len() ==> is_white_space(#[trigger] s[i]),
        k > 0 ==> !is_white_space(s[k - 1]),
    decreases s.len(),
{
    if s.len() > 0 && is_white_space(s.last()) {
        let k = lemma_trim_end_cut(s.drop_last());
        assert(s.drop_last().take(k) =~= s.take(k));
        assert forall|i: int| k <= i < s.len() implies is_white_space(#[trigger] s[i]) by {
            if i < s.len() - 1 {
                assert(s[i] == s.drop_last()[i]);
            }
        }
        k
    } else {
        assert(s.take(s.len() as int) =~= s);
        s.len() as int
    }
}

/// A copy of `s` without the white space at its two ends.
pub fn trim(s: &str) -> (r: String)
    ensures
        r@ == trimmed(s@),
{
    let mut seen: usize = 0;
    let mut start: usize = 0;
    let mut end: usize = 0;
    let total: usize = s.unicode_len();
    for c in it: s.chars()
        invariant
            it.seq() == s@,
            total == s@.len(),
            seen == it.index(),
            start <= seen <= total,
            end <= seen,
            end == 0 || start < end,
            forall|i: int| 0 <= i < start ==> is_white_space(#[trigger] s@[i]),
            end == 0 ==> start == seen,
            end > 0 ==> start < seen && !is_white_space(s@[start as int]) && !is_white_space(s@[end - 1]),
            end > 0 ==> forall|i: int| end <= i < seen ==> is_white_space(#[trigger] s@[i]),
    {
        if white_space(c) {
            if end == 0 {
                start = start + 1;
            }
        } else {
            end = seen + 1;
        }
        seen = seen + 1;
    }
    proof {
        lemma_trim_start(s@, start as int);
        let rest = s@.skip(start as int);
        if end == 0 {
            assert(rest =~= Seq::<char>::empty());
        } else {
            assert forall|i: int| end - start <= i < rest.len() implies is_white_space(#[trigger] rest[i]) by {
                assert(is_white_space(s@[i + start]));
            }
            lemma_trim_end(rest, end - start);
            assert(rest.take(end - start) =~= s@.subrange(start as int, end as int));
        }
    }
    if end == 0 {
        String::new()
    } else {
        s.substring_char(start, end).to_owned()
    }
}

/// The numeral for a digit below sixteen, with small letters from ten on.
pub open spec fn digit(d: nat) -> char {
    if d < 10 {
        (0x30 + d) as char
    } else {
        (0x57 + d) as char
    }
}

/// `n` written in `base`, the most significant digit first.
pub open spec fn numeral(n: nat, base: nat) -> Seq<char>
    decreases n,
{
    if base < 2 || n < base {
        seq![digit(n)]
    } else {
        proof {
            assert(n / base < n) by (nonlinear_arith)
                requires
                    2 <= base <= n,
            ;
        }
        numeral(n / base, base).push(digit(n % base))
    }
}

/// `n` in decimal.
pub open spec fn decimal(n: nat) -> Seq<char> {
    numeral(n, 10)
}

/// `s` with zeros put before it up to `width` characters.
pub open spec fn zero_padded(s: Seq<char>, width: nat) -> Seq<char> {
    if s.len() < width {
        Seq::new((width - s.len()) as nat, |i: int| '0') + s
    } else {
        s
    }
}

fn digit_text(d: u64) -> (r: &'static str)
    requires
        d < 16,
    ensures
        r@ == seq![digit(d as nat)],
{
    proof {
        reveal_strlit("0");
        reveal_strlit("1");
        reveal_strlit("2");
        reveal_strlit("3");
        reveal_strlit("4");
        reveal_strlit("5");
        reveal_strlit("6");
        reveal_strlit("7");
        reveal_strlit("8");
        reveal_strlit("9");
        reveal_strlit("a");
        reveal_strlit("b");
        reveal_strlit("c");
        reveal_strlit("d");
        reveal_strlit("e");
        reveal_strlit("f");
    }
    match d {
        0 => "0",
        1 => "1",
        2 => "2",
        3 => "3",
        4 => "4",
        5 => "5",
        6 => "6",
        7 => "7",
        8 => "8",
        9 => "9",
        10 => "a",
        11 => "b",
        12 => "c",
        13 => "d",
        14 => "e",
        _ => "f",
    }
}

/// Writes `n` in `base`.
pub fn to_numeral(n: u64, base: u64) -> (r: String)
    requires
        2 <= base <= 16,
    ensures
        r@ == numeral(n as nat, base as nat),
    decreases n,
{
    if n < base {
        digit_text(n).to_owned()
    } else {
        proof {
            assert(n / base < n) by (nonlinear_arith)
                requires
                    2 <= base <= n,
            ;
        }
        let mut r = to_numeral(n / base, base);
        r.append(digit_text(n % base));
        proof {
            assert(r@ =~= numeral((n / base) as nat, base as nat).push(digit((n % base) as nat)));
        }
        r
    }
}

/// Writes `n` in decimal.
pub fn to_decimal(n: u64) -> (r: String)
    ensures
        r@ == decimal(n as nat),
{
    to_numeral(n, 10)
}

/// Writes `n` in hexadecimal, with zeros before it up to `width` characters.
pub fn to_hex(n: u64, width: usize) -> (r: String)
    ensures
        r@ == zero_padded(numeral(n as nat, 16), width as nat),
{
    let digits = to_numeral(n, 16);
    let len: usize = digits.as_str().unicode_len();
    let mut r = String::new();
    let mut i: usize = len;
    while i < width
        invariant
            len <= i,
            i <= width || i == len,
            r@ == Seq::new((i - len) as nat, |j: int| '0'),
        decreases width - i,
    {
        proof {
            reveal_strlit("0");
        }
        r.append("0");
        i = i + 1;
        assert(r@ =~= Seq::new((i - len) as nat, |j: int| '0'));
    }
    r.append(digits.as_str());
    assert(r@ =~= zero_padded(numeral(n as nat, 16), width as nat));
    r
}

/// Whether `c` is a decimal digit.
pub open spec fn is_digit(c: char) -> bool {
    '0' <= c <= '9'
}

/// The number that a row of decimal digits stands for.
pub open spec fn digits_value(s: Seq<char>) -> nat
    decreases s.len(),
{
    if s.len() == 0 {
        0
    } else {
        digits_value(s.drop_last()) * 10 + (s.last() as nat - 0x30) as nat
    }
}

/// Whether `s` is a row of at least one decimal digit.
pub open spec fn is_digits(s: Seq<char>) -> bool {
    s.len() > 0 && forall|i: int| 0 <= i < s.len() ==> is_digit(#[trigger] s[i])
}

/// Whether `s` begins with a sign.
pub open spec fn is_signed(s: Seq<char>) -> bool {
    s.len() > 0 && (s[0] == '-' || s[0] == '+')
}

/// `s` without the sign it begins with.
pub open spec fn without_sign(s: Seq<char>) -> Seq<char> {
    if is_signed(s) {
        s.skip(1)
    } else {
        s
    }
}

/// The value of a decimal integer: an optional sign, then at least one digit.
pub open spec fn integer_value(s: Seq<char>) -> Option<int> {
    let digits = without_sign(s);
    if is_digits(digits) {
        Some(if s[0] == '-' { -(digits_value(digits) as int) } else { digits_value(digits) as int })
    } else {
        None
    }
}

/// `integer_value`, where it fits an `i32`.
pub open spec fn i32_value(s: Seq<char>) -> Option<i32> {
    match integer_value(s) {
        Some(v) if i32::MIN <= v <= i32::MAX => Some(v as i32),
        _ => None,
    }
}

/// Reads a decimal integer.
pub fn parse_i32(s: &str) -> (r: Option<i32>)
    ensures
        r == i32_value(s@),
{
    let total: usize = s.unicode_len();
    let mut seen: usize = 0;
    let mut from: usize = 0;
    let mut value: u64 = 0;
    let mut negative: bool = false;
    let mut large: bool = false;
    for c in it: s.chars()
        invariant
            it.seq() == s@,
            total == s@.len(),
            seen == it.index(),
            from <= seen <= total,
            seen > 0 ==> from == (if is_signed(s@) { 1int } else { 0int }),
            negative == (seen > 0 && s@[0] == '-'),
            forall|i: int| from <= i < seen ==> is_digit(#[trigger] s@[i]),
            large ==> digits_value(s@.subrange(from as int, seen as int)) > 0x8000_0000,
            !large ==> value == digits_value(s@.subrange(from as int, seen as int)),
            !large ==> value <= 0x8000_0000,
    {
        if seen == 0 && (c == '-' || c == '+') {
            from = 1;
            negative = c == '-';
            assert(s@.subrange(1, 1) =~= Seq::<char>::empty());
        } else if '0' <= c && c <= '9' {
            proof {
                let now = s@.subrange(from as int, seen + 1);
                assert(now.drop_last() =~= s@.subrange(from as int, seen as int));
                assert(now.last() == c);
            }
            if !large {
                value = value * 10 + (c as u64 - 0x30);
                large = value > 0x8000_0000;
            }
        } else {
            proof {
                assert(without_sign(s@)[seen - from] == c);
                assert(!is_digit(c));
            }
            return None;
        }
        seen = seen + 1;
    }
    if total == from {
        return None;
    }
    proof {
        let digits = without_sign(s@);
        assert(s@.subrange(from as int, total as int) =~= digits);
        assert forall|i: int| 0 <= i < digits.len() implies is_digit(#[trigger] digits[i]) by {
            assert(is_digit(s@[i + from]));
        }
    }
    if large {
        None
    } else if negative {
        Some((-(value as i64)) as i32)
    } else if value <= 0x7fff_ffff {
        Some(value as i32)
    } else {
        None
    }
}

/// The part of `s` before the first `c`, or all of it.
pub open spec fn before(s: Seq<char>, c: char) -> Seq<char>
    decreases s.len(),
{
    if s.len() == 0 || s.first() == c {
        Seq::empty()
    } else {
        seq![s.first()] + before(s.drop_first(), c)
    }
}

proof fn lemma_before(s: Seq<char>, c: char, k: int)
    requires
        0 <= k <= s.len(),
        forall|i: int| 0 <= i < k ==> #[trigger] s[i] != c,
        k < s.len() ==> s[k] == c,
    ensures
        before(s, c) == s.take(k),
    decreases s.len(),
{
    if k > 0 {
        assert(s[0] != c);
        assert forall|i: int| 0 <= i < k - 1 implies #[trigger] s.drop_first()[i] != c by {
            assert(s[i + 1] != c);
        }
        lemma_before(s.drop_first(), c, k - 1);
        assert(seq![s.first()] + s.drop_first().take(k - 1) =~= s.take(k));
    } else {
        assert(s.take(0) =~= Seq::<char>::empty());
    }
}

/// The part of `s` before the first `c`, or all of it.
pub fn take_before(s: &str, c: char) -> (r: &str)
    ensures
        r@ == before(s@, c),
{
    let total: usize = s.unicode_len();
    let mut seen: usize = 0;
    for d in it: s.chars()
        invariant
            it.seq() == s@,
            total == s@.len(),
            seen == it.index(),
            seen <= total,
            forall|i: int| 0 <= i < seen ==> #[trigger] s@[i] != c,
    {
        if d == c {
            proof {
                lemma_before(s@, c, seen as int);
                assert(s@.take(seen as int) =~= s@.subrange(0, seen as int));
            }
            return s.substring_char(0, seen);
        }
        seen = seen + 1;
    }
    proof {
        lemma_before(s@, c, total as int);
        assert(s@.take(total as int) =~= s@);
    }
    s
}

/// What stands before the first `c` is the longest start without it.
pub proof fn lemma_before_is_start(s: Seq<char>, c: char)
    ensures
        before(s, c).is_prefix_of(s),
        !before(s, c).contains(c),
        before(s, c).len() < s.len() ==> s[before(s, c).len() as int] == c,
        !s.contains(c) ==> before(s, c) == s,
    decreases s.len(),
{
    if s.len() > 0 && s.first() != c {
        let t = s.drop_first();
        let b = before(t, c);
        lemma_before_is_start(t, c);
        let r = seq![s.first()] + b;
        assert forall|i: int| 0 <= i < r.len() implies r[i] == s[i] && r[i] != c by {
            if i > 0 {
                assert(r[i] == b[i - 1]);
                assert(t[i - 1] == s[i]);
            }
        }
        if !s.contains(c) {
            assert(!t.contains(c)) by {
                if t.contains(c) {
                    let i = choose|i: int| 0 <= i < t.len() && t[i] == c;
                    assert(s[i + 1] == c);
                }
            }
            assert(r =~= s);
        }
    } else if s.len() > 0 {
        assert(s[0] == c);
        assert(s.contains(c));
    } else {
        assert(before(s, c) =~= s);
    }
}

/// What stands before the first `c` is what was put there.
pub proof fn lemma_before_first(head: Seq<char>, c: char, rest: Seq<char>)
    requires
        !head.contains(c),
    ensures
        before(head.push(c) + rest, c) == head,
{
    let s = head.push(c) + rest;
    assert forall|i: int| 0 <= i < head.len() implies #[trigger] s[i] != c by {
        assert(s[i] == head[i]);
    }
    lemma_before(s, c, head.len() as int);
    assert(s.take(head.len() as int) =~= head);
}

/// A decimal numeral is a row of digits, and stands for the number that was
/// written.
pub proof fn lemma_decimal(n: nat)
    ensures
        is_digits(decimal(n)),
        digits_value(decimal(n)) == n,
    decreases n,
{
    let s = decimal(n);
    if n < 10 {
        assert(s.drop_last() =~= Seq::<char>::empty());
        assert(s.last() == digit(n));
        assert(digits_value(s.drop_last()) == 0);
    } else {
        lemma_decimal(n / 10);
        let head = decimal(n / 10);
        assert(s == head.push(digit(n % 10)));
        assert(s.drop_last() =~= head);
        assert(s.last() == digit(n % 10));
        assert forall|i: int| 0 <= i < s.len() implies is_digit(#[trigger] s[i]) by {
            if i < head.len() {
                assert(s[i] == head[i]);
            }
        }
    }
}

/// Reading a decimal numeral gives back the number that was written.
pub proof fn lemma_decimal_read(n: nat)
    requires
        n <= i32::MAX,
    ensures
        i32_value(decimal(n)) == Some(n as i32),
{
    lemma_decimal(n);
    assert(is_digit(decimal(n)[0]));
    assert(without_sign(decimal(n)) == decimal(n));
}

/// A decimal numeral has no zero before it.
pub proof fn lemma_decimal_canonical(n: nat)
    ensures
        decimal(n).len() > 0,
        n > 0 ==> decimal(n)[0] != '0',
        n == 0 ==> decimal(n) == seq!['0'],
    decreases n,
{
    if n >= 10 {
        lemma_decimal_canonical(n / 10);
        lemma_decimal(n / 10);
        assert(decimal(n)[0] == decimal(n / 10)[0]);
    } else {
        assert(decimal(n) =~= seq![digit(n)]);
    }
}

/// A sign counts, zeros before the digits do not, and what holds anything but
/// digits after the sign is no number.
pub proof fn lemma_integer_read(n: nat, s: Seq<char>)
    ensures
        n <= 0x8000_0000 ==> i32_value(seq!['-'] + decimal(n)) == Some((-(n as int)) as i32),
        n <= i32::MAX ==> i32_value(seq!['+'] + decimal(n)) == Some(n as i32),
        n > i32::MAX ==> i32_value(decimal(n)) is None,
        n > 0x8000_0000 ==> i32_value(seq!['-'] + decimal(n)) is None,
        is_digits(s) ==> i32_value(seq!['0'] + s) == i32_value(s),
        s.len() == 0 ==> i32_value(s) is None,
        forall|i: int|
            0 < i < s.len() && !('0' <= #[trigger] s[i] <= '9') ==> i32_value(s) is None,
        s.len() > 0 && !('0' <= s[0] <= '9') && s[0] != '-' && s[0] != '+' ==> i32_value(s) is None,
        s.len() == 1 && !('0' <= s[0] <= '9') ==> i32_value(s) is None,
{
    let d = decimal(n);
    lemma_decimal(n);
    assert(is_digit(d[0]));
    assert(without_sign(d) == d);
    assert((seq!['-'] + d).skip(1) =~= d);
    assert((seq!['+'] + d).skip(1) =~= d);
    if is_digits(s) {
        let z = seq!['0'] + s;
        assert(is_digit(s[0]));
        lemma_zero_before(s);
        assert forall|i: int| 0 <= i < z.len() implies is_digit(#[trigger] z[i]) by {
            if i > 0 {
                assert(z[i] == s[i - 1]);
            }
        }
    }
    if s.len() > 0 {
        let w = without_sign(s);
        assert forall|i: int| 0 < i < s.len() && !('0' <= #[trigger] s[i] <= '9') implies i32_value(s) is None by {
            let j = if is_signed(s) { i - 1 } else { i };
            assert(w[j] == s[i]);
            assert(!is_digit(w[j]));
        }
        if !is_signed(s) {
            assert(w[0] == s[0]);
        }
    }
}

proof fn lemma_zero_before(s: Seq<char>)
    ensures
        digits_value(seq!['0'] + s) == digits_value(s),
    decreases s.len(),
{
    let z = seq!['0'] + s;
    if s.len() > 0 {
        lemma_zero_before(s.drop_last());
        assert(z.drop_last() =~= seq!['0'] + s.drop_last());
        assert(z.last() == s.last());
    } else {
        assert(z.drop_last() =~= Seq::<char>::empty());
        assert(digits_value(Seq::<char>::empty()) == 0);
        assert(z.last() == '0');
    }
}

/// The number that a row of digits of a base up to sixteen stands for.
pub open spec fn row_value(s: Seq<char>, base: nat) -> nat
    decreases s.len(),
{
    if s.len() == 0 {
        0
    } else {
        row_value(s.drop_last(), base) * base + (if s.last() <= '9' {
            s.last() as int - '0' as int
        } else {
            s.last() as int - 'a' as int + 10
        }) as nat
    }
}

/// A numeral stands for the number that was written, and padding puts nothing
/// but zeros before it.
pub proof fn lemma_numeral(n: nat, base: nat, width: nat)
    requires
        2 <= base <= 16,
    ensures
        row_value(numeral(n, base), base) == n,
        numeral(n, base).is_suffix_of(zero_padded(numeral(n, base), width)),
        zero_padded(numeral(n, base), width).len() >= width,
        numeral(n, base).len() >= width ==> zero_padded(numeral(n, base), width) == numeral(n, base),
        forall|i: int|
            0 <= i < zero_padded(numeral(n, base), width).len() - numeral(n, base).len() ==> (
            #[trigger] zero_padded(numeral(n, base), width)[i]) == '0',
    decreases n,
{
    let s = numeral(n, base);
    if n < base {
        assert(s =~= seq![digit(n)]);
        assert(s.drop_last() =~= Seq::<char>::empty());
        assert(row_value(s.drop_last(), base) == 0);
        assert(0 * base == 0) by (nonlinear_arith);
    } else {
        assert(n / base < n && n % base < base) by (nonlinear_arith)
            requires
                2 <= base <= n,
        ;
        lemma_numeral(n / base, base, width);
        assert(s.drop_last() =~= numeral(n / base, base));
        assert(s.last() == digit(n % base));
        assert((n / base) * base + n % base == n) by (nonlinear_arith)
            requires
                2 <= base,
        ;
    }
    let z = zero_padded(s, width);
    if s.len() < width {
        assert(z.skip(z.len() - s.len()) =~= s);
    } else {
        assert(z.skip(0) =~= s);
    }
}

/// Different numbers have different numerals.
pub proof fn lemma_decimal_apart(a: nat, b: nat)
    requires
        decimal(a) == decimal(b),
    ensures
        a == b,
{
    lemma_decimal(a);
    lemma_decimal(b);
}

proof fn lemma_scalar_lacks(u: u32, b: u8)
    requires
        vstd::utf8::is_scalar(u),
        b < 0x80,
        u != b,
    ensures
        !encode_scalar(u).contains(b),
{
    let e = encode_scalar(u);
    if has_width_1_encoding(u) {
        assert((u & 0x7f) as u8 != b) by (bit_vector)
            requires
                u <= 0x7f,
                u != b,
        ;
    } else {
        assert((0x80u8 | ((u & 0x3f) as u8)) >= 0x80u8) by (bit_vector);
        assert((0x80u8 | (((u >> 6) & 0x3f) as u8)) >= 0x80u8) by (bit_vector);
        assert((0x80u8 | (((u >> 12) & 0x3f) as u8)) >= 0x80u8) by (bit_vector);
        assert((0xc0u8 | (((u >> 6) & 0x1f) as u8)) >= 0x80u8) by (bit_vector);
        assert((0xe0u8 | (((u >> 12) & 0x0f) as u8)) >= 0x80u8) by (bit_vector);
        assert((0xf0u8 | (((u >> 18) & 0x07) as u8)) >= 0x80u8) by (bit_vector);
    }
}

/// The bytes of a text hold an ASCII byte only where the text holds the
/// character.
pub proof fn lemma_bytes_lack(s: Seq<char>, b: u8)
    requires
        b < 0x80,
        forall|i: int| 0 <= i < s.len() ==> #[trigger] s[i] as u32 != b,
    ensures
        !encode_utf8(s).contains(b),
    decreases s.len(),
{
    if s.len() > 0 {
        let rest = s.drop_first();
        assert forall|i: int| 0 <= i < rest.len() implies #[trigger] rest[i] as u32 != b by {
            assert(rest[i] == s[i + 1]);
        }
        lemma_bytes_lack(rest, b);
        assert(s[0] as u32 != b);
        vstd::utf8::char_is_scalar(s[0]);
        lemma_scalar_lacks(s[0] as u32, b);
        let head = encode_scalar(s[0] as u32);
        let tail = encode_utf8(rest);
        assert forall|i: int| 0 <= i < (head + tail).len() implies (head + tail)[i] != b by {
            if i < head.len() {
                assert((head + tail)[i] == head[i]);
            } else {
                assert((head + tail)[i] == tail[i - head.len()]);
            }
        }
    }
}

/// Whether the two texts are equal.
pub fn same_text(a: &str, b: &str) -> (r: bool)
    ensures
        r == (a@ == b@),
{
    proof {
        vstd::utf8::encode_utf8_decode_utf8(a@);
        vstd::utf8::encode_utf8_decode_utf8(b@);
    }
    equal(a.as_bytes(), b.as_bytes())
}

/// The contents of a list of strings.
pub open spec fn texts(v: Seq<String>) -> Seq<Seq<char>> {
    v.map_values(|x: String| x@)
}

/// The words one after the other with a space between them.
pub open spec fn spaced(words: Seq<Seq<char>>) -> Seq<char>
    decreases words.len(),
{
    if words.len() == 0 {
        Seq::empty()
    } else if words.len() == 1 {
        words[0]
    } else {
        spaced(words.drop_last()) + " "@ + words.last()
    }
}

/// Two rows of words are put together with one space.
pub proof fn lemma_spaced(a: Seq<Seq<char>>, b: Seq<Seq<char>>, word: Seq<char>)
    ensures
        a.len() > 0 && b.len() > 0 ==> spaced(a + b) == spaced(a).push(' ') + spaced(b),
        spaced(seq![word]) == word,
        spaced(Seq::<Seq<char>>::empty()) == Seq::<char>::empty(),
    decreases b.len(),
{
    reveal_strlit(" ");
    if a.len() > 0 && b.len() > 0 {
        let c = b.drop_last();
        assert((a + b).drop_last() =~= a + c);
        assert((a + b).last() == b.last());
        if c.len() > 0 {
            lemma_spaced(a, c, word);
            assert(spaced(b) == spaced(c) + " "@ + b.last());
            assert(spaced(a + b) =~= spaced(a).push(' ') + spaced(b));
        } else {
            assert(a + c =~= a);
            assert(spaced(b) == b[0]);
            assert(spaced(a + b) =~= spaced(a).push(' ') + spaced(b));
        }
    }
}

/// Puts the words one after the other with a space between them.
pub fn join_words(words: &Vec<String>) -> (r: String)
    ensures
        r@ == spaced(texts(words@)),
{
    let mut r = String::new();
    let mut i: usize = 0;
    let ghost all = texts(words@);
    assert(all.take(0) =~= Seq::<Seq<char>>::empty());
    while i < words.len()
        invariant
            i <= words.len(),
            all == texts(words@),
            r@ == spaced(all.take(i as int)),
        decreases words.len() - i,
    {
        proof {
            assert(all.take(i + 1).drop_last() =~= all.take(i as int));
            assert(all.take(i + 1).last() == words@[i as int]@);
        }
        if i > 0 {
            r.append(" ");
        }
        r.append(words[i].as_str());
        proof {
            if i == 0 {
                assert(r@ =~= all.take(1)[0]);
            }
        }
        i = i + 1;
    }
    assert(all.take(i as int) =~= all);
    r
}

/// What `String::from_utf8_lossy` makes of a row of bytes.
pub uninterp spec fn utf8_lossy(bytes: Seq<u8>) -> Seq<char>;

/// `String::from_utf8_lossy`: a function of the bytes alone, which decodes them
/// where they are UTF-8 and puts U+FFFD in place of what is not.
#[verifier::external_body]
pub(crate) fn from_utf8_lossy(bytes: &[u8]) -> (r: String)
    ensures
        r@ == utf8_lossy(bytes@),
        valid_utf8(bytes@) ==> r@ == decode_utf8(bytes@),
{
    String::from_utf8_lossy(bytes).into_owned()
}

/// The bytes as text: what they encode, where they are UTF-8, and otherwise with
/// U+FFFD in place of what is not.
pub open spec fn shown(bytes: Seq<u8>) -> Seq<char> {
    if valid_utf8(bytes) {
        decode_utf8(bytes)
    } else {
        utf8_lossy(bytes)
    }
}

/// Text that was turned into bytes is shown as it was.
pub proof fn lemma_text_is_shown(text: Seq<char>)
    ensures
        shown(encode_utf8(text)) == text,
{
    vstd::utf8::encode_utf8_valid_utf8(text);
    vstd::utf8::encode_utf8_decode_utf8(text);
}

/// Bytes that are UTF-8 are shown as the one text that they encode.
pub proof fn lemma_shown_is_encoded(bytes: Seq<u8>)
    requires
        valid_utf8(bytes),
    ensures
        encode_utf8(shown(bytes)) == bytes,
{
    vstd::utf8::decode_utf8_encode_utf8(bytes);
}

/// The bytes of two texts one after the other are those of the whole.
pub proof fn lemma_encode_concat(a: Seq<char>, b: Seq<char>)
    ensures
        encode_utf8(a + b) == encode_utf8(a) + encode_utf8(b),
    decreases a.len(),
{
    if a.len() == 0 {
        assert(a + b =~= b);
        assert(encode_utf8(a) + encode_utf8(b) =~= encode_utf8(b));
    } else {
        assert((a + b).drop_first() =~= a.drop_first() + b);
        lemma_encode_concat(a.drop_first(), b);
        assert(encode_utf8(a + b) =~= encode_utf8(a) + encode_utf8(b));
    }
}

/// `std::str::from_utf8`: the text that the bytes encode, and nothing where
/// they are not UTF-8.
#[verifier::external_body]
pub(crate) fn from_utf8(bytes: &[u8]) -> (r: Option<&str>)
    ensures
        r is Some <==> valid_utf8(bytes@),
        r matches Some(s) ==> s@ == decode_utf8(bytes@),
{
    std::str::from_utf8(bytes).ok()
}

/// The characters that count as white space, one by one.
pub open spec fn white_spaces() -> Seq<char> {
    seq![
        '\t', '\n', '\u{b}', '\u{c}', '\r', ' ', '\u{85}', '\u{a0}', '\u{1680}', '\u{2000}', '\u{2001}', '\u{2002}',
        '\u{2003}', '\u{2004}', '\u{2005}', '\u{2006}', '\u{2007}', '\u{2008}', '\u{2009}', '\u{200a}', '\u{2028}',
        '\u{2029}', '\u{202f}', '\u{205f}', '\u{3000}',
    ]
}

/// White space is what is listed as such, and nothing else.
pub proof fn lemma_white_space(c: char)
    ensures
        is_white_space(c) <==> white_spaces().contains(c),
{
    let all = white_spaces();
    assert(all.len() == 25);
    assert(forall|i: int| 0 <= i < 25 ==> is_white_space(#[trigger] all[i]));
    if is_white_space(c) {
        let u = c as u32;
        let i: int = if u <= 0xd {
            u - 9
        } else if u == 0x20 {
            5
        } else if u == 0x85 {
            6
        } else if u == 0xa0 {
            7
        } else if u == 0x1680 {
            8
        } else if u <= 0x200a {
            u - 0x2000 + 9
        } else if u == 0x2028 {
            20
        } else if u == 0x2029 {
            21
        } else if u == 0x202f {
            22
        } else if u == 0x205f {
            23
        } else {
            24
        };
        assert(all[i] as u32 == u);
        assert(all[i] == c);
    }
}

/// A list of strings has as many texts, each that of the string in its place.
pub proof fn lemma_texts(v: Seq<String>)
    ensures
        texts(v).len() == v.len(),
        forall|i: int| 0 <= i < v.len() ==> #[trigger] texts(v)[i] == v[i]@,
{
}

} // verus!
