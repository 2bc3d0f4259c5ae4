//! Numeric fields of the layout description: unsigned integers, hexadecimal
//! when prefixed `0x`/`0X`, decimal otherwise; an empty or whitespace-only
//! field denotes 0.

use vstd::prelude::*;

use crate::parts::FirmwareError;

verus! {

/// The whitespace characters that field trimming removes.
pub open spec fn is_space(c: char) -> bool {
    c == ' ' || c == '\t' || c == '\r' || c == '\n'
}

/// `s` with its leading whitespace removed.
pub open spec fn trim_front(s: Seq<char>) -> Seq<char>
    decreases s.len(),
{
    if s.len() > 0 && is_space(s[0]) {
        trim_front(s.skip(1))
    } else {
        s
    }
}

/// `s` with its trailing whitespace removed.
pub open spec fn trim_back(s: Seq<char>) -> Seq<char>
    decreases s.len(),
{
    if s.len() > 0 && is_space(s.last()) {
        trim_back(s.drop_last())
    } else {
        s
    }
}

/// `s` with whitespace removed from both ends.
pub open spec fn trimmed(s: Seq<char>) -> Seq<char> {
    trim_back(trim_front(s))
}

/// The numeric value of a digit character, or 16 for anything that is no
/// digit in any supported radix.
pub open spec fn digit_val(c: char) -> nat {
    let x = c as int;
    if 0x30 <= x && x <= 0x39 {
        (x - 0x30) as nat
    } else if 0x61 <= x && x <= 0x66 {
        (x - 0x61 + 10) as nat
    } else if 0x41 <= x && x <= 0x46 {
        (x - 0x41 + 10) as nat
    } else {
        16
    }
}

/// Whether `c` is a digit of the given radix (10 or 16).
pub open spec fn is_digit(c: char, radix: nat) -> bool {
    digit_val(c) < radix
}

/// Whether every character of `s` is a digit of the given radix.
pub open spec fn all_digits(s: Seq<char>, radix: nat) -> bool {
    forall|i: int| 0 <= i < s.len() ==> is_digit(#[trigger] s[i], radix)
}

/// The value denoted by a digit string, most significant digit first.
pub open spec fn digits_value(s: Seq<char>, radix: nat) -> nat
    decreases s.len(),
{
    if s.len() == 0 {
        0
    } else {
        digits_value(s.drop_last(), radix) * radix + digit_val(s.last())
    }
}

/// Whether `s` starts with a hexadecimal prefix `0x` or `0X`.
pub open spec fn has_hex_prefix(s: Seq<char>) -> bool {
    s.len() >= 2 && s[0] == '0' && (s[1] == 'x' || s[1] == 'X')
}

/// What a digit string parses to: after an optional leading `+`, its value,
/// provided at least one digit follows, all characters are digits, and the
/// value fits in a `u64`.
pub open spec fn parse_digits_spec(s: Seq<char>, radix: nat) -> Option<u64> {
    let d = if s.len() > 0 && s[0] == '+' {
        s.skip(1)
    } else {
        s
    };
    if d.len() > 0 && all_digits(d, radix) && digits_value(d, radix) <= u64::MAX {
        Some(digits_value(d, radix) as u64)
    } else {
        None
    }
}

/// What a numeric field parses to. The field is trimmed first; an empty
/// result denotes 0; a `0x`/`0X` prefix selects hexadecimal; `None` is a
/// hard parse failure.
pub open spec fn parse_number_spec(s: Seq<char>) -> Option<u64> {
    let t = trimmed(s);
    if t.len() == 0 {
        Some(0u64)
    } else if has_hex_prefix(t) {
        parse_digits_spec(t.skip(2), 16)
    } else {
        parse_digits_spec(t, 10)
    }
}

/// When the first `k` characters are whitespace and the next one (if any) is
/// not, trimming the front removes exactly those `k`.
proof fn lemma_trim_front_skip(s: Seq<char>, k: int)
    requires
        0 <= k <= s.len(),
        forall|j: int| 0 <= j < k ==> is_space(#[trigger] s[j]),
        k < s.len() ==> !is_space(s[k]),
    ensures
        trim_front(s) == s.skip(k),
    decreases k,
{
    if k == 0 {
        assert(s.skip(0) =~= s);
    } else {
        lemma_trim_front_skip(s.skip(1), k - 1);
        assert(s.skip(1).skip(k - 1) =~= s.skip(k));
    }
}

/// When everything from position `m` on is whitespace and the character
/// before `m` (if any) is not, trimming the back keeps exactly the first `m`.
proof fn lemma_trim_back_take(s: Seq<char>, m: int)
    requires
        0 <= m <= s.len(),
        forall|j: int| m <= j < s.len() ==> is_space(#[trigger] s[j]),
        m > 0 ==> !is_space(s[m - 1]),
    ensures
        trim_back(s) == s.take(m),
    decreases s.len() - m,
{
    if m == s.len() {
        assert(s.take(m) =~= s);
        if s.len() > 0 {
            assert(!is_space(s.last()));
        }
    } else {
        lemma_trim_back_take(s.drop_last(), m);
        assert(s.drop_last().take(m) =~= s.take(m));
    }
}

/// A digit of any supported radix is not whitespace.
proof fn lemma_digit_not_space(c: char)
    requires
        digit_val(c) < 16,
    ensures
        !is_space(c),
{
}

/// The value of a longer digit string is at least the value of any of its
/// prefixes.
proof fn lemma_digits_value_prefix_le(s: Seq<char>, m: int, radix: nat)
    requires
        0 <= m <= s.len(),
        radix >= 1,
    ensures
        digits_value(s.take(m), radix) <= digits_value(s, radix),
    decreases s.len() - m,
{
    if m == s.len() {
        assert(s.take(m) =~= s);
    } else {
        lemma_digits_value_prefix_le(s, m + 1, radix);
        assert(s.take(m + 1).drop_last() =~= s.take(m));
        assert(s.take(m + 1).last() == s[m]);
        let a = digits_value(s.take(m), radix);
        assert(a * radix >= a) by (nonlinear_arith)
            requires radix >= 1,
        ;
    }
}

/// Whether `c` is trimmed away, decided in executable code.
fn is_space_char(c: char) -> (r: bool)
    ensures
        r == is_space(c),
{
    c == ' ' || c == '\t' || c == '\r' || c == '\n'
}

/// The digit value of `c` under the given radix, or `None` when `c` is no
/// such digit.
fn char_digit(c: char, radix: u64) -> (r: Option<u64>)
    requires
        radix == 10 || radix == 16,
    ensures
        match r {
            Some(v) => is_digit(c, radix as nat) && v == digit_val(c),
            None => !is_digit(c, radix as nat),
        },
{
    let x = c as u32;
    let v: u64 = if 0x30 <= x && x <= 0x39 {
        (x - 0x30) as u64
    } else if 0x61 <= x && x <= 0x66 {
        (x - 0x61 + 10) as u64
    } else if 0x41 <= x && x <= 0x46 {
        (x - 0x41 + 10) as u64
    } else {
        16
    };
    if v < radix {
        Some(v)
    } else {
        None
    }
}

/// The bounds of `v[start..end]` once whitespace at both ends is dropped.
pub(crate) fn trim_bounds(v: &Vec<char>, start: usize, end: usize) -> (r: (usize, usize))
    requires
        start <= end <= v@.len(),
    ensures
        start <= r.0 <= r.1 <= end,
        trimmed(v@.subrange(start as int, end as int)) == v@.subrange(r.0 as int, r.1 as int),
{
    let ghost s = v@.subrange(start as int, end as int);
    let mut a = start;
    while a < end && is_space_char(v[a])
        invariant
            start <= a <= end <= v@.len(),
            forall|j: int| start <= j < a ==> is_space(#[trigger] v@[j]),
        decreases end - a,
    {
        a += 1;
    }
    proof {
        lemma_trim_front_skip(s, a - start);
        assert(trim_front(s) =~= v@.subrange(a as int, end as int));
    }
    let mut b = end;
    while b > a && is_space_char(v[b - 1])
        invariant
            start <= a <= b <= end <= v@.len(),
            forall|j: int| b <= j < end ==> is_space(#[trigger] v@[j]),
        decreases b,
    {
        b -= 1;
    }
    proof {
        let f = v@.subrange(a as int, end as int);
        lemma_trim_back_take(f, b - a);
        assert(trim_back(f) =~= v@.subrange(a as int, b as int));
    }
    (a, b)
}

/// Parses `v[start..end]` as a digit string of the given radix, behind an
/// optional leading `+`.
#[verifier::loop_isolation(false)]
fn parse_digits(v: &Vec<char>, start: usize, end: usize, radix: u64) -> (r: Option<u64>)
    requires
        start <= end <= v@.len(),
        radix == 10 || radix == 16,
    ensures
        r == parse_digits_spec(v@.subrange(start as int, end as int), radix as nat),
{
    let ghost s = v@.subrange(start as int, end as int);
    if start == end {
        return None;
    }
    let ds = if v[start] == '+' {
        start + 1
    } else {
        start
    };
    let ghost d = v@.subrange(ds as int, end as int);
    proof {
        if s[0] == '+' {
            assert(d =~= s.skip(1));
        } else {
            assert(d =~= s);
        }
    }
    if ds == end {
        return None;
    }
    let mut value: u64 = 0;
    let mut i = ds;
    while i < end
        invariant
            ds <= i <= end <= v@.len(),
            radix == 10 || radix == 16,
            d == v@.subrange(ds as int, end as int),
            all_digits(d.take(i - ds), radix as nat),
            value == digits_value(d.take(i - ds), radix as nat),
        decreases end - i,
    {
        let ghost k = i - ds;
        let c = v[i];
        proof {
            assert(d.take(k + 1).drop_last() =~= d.take(k));
            assert(d.take(k + 1).last() == d[k]);
            assert(d[k] == v@[i as int]);
        }
        match char_digit(c, radix) {
            None => {
                // The field holds a non-digit: a hard parse failure.
                assert(!is_digit(d[k], radix as nat));
                return None;
            },
            Some(dv) => {
                let next = match value.checked_mul(radix) {
                    Some(m) => m.checked_add(dv),
                    None => None,
                };
                match next {
                    Some(nv) => {
                        value = nv;
                    },
                    None => {
                        // The value overflows a u64: a hard parse failure.
                        proof {
                            assert(digits_value(d.take(k + 1), radix as nat) > u64::MAX);
                            if all_digits(d, radix as nat) {
                                lemma_digits_value_prefix_le(d, k + 1, radix as nat);
                            }
                        }
                        return None;
                    },
                }
            },
        }
        i += 1;
    }
    proof {
        assert(d.take(end - ds) =~= d);
    }
    Some(value)
}

/// Parses the numeric field `v[start..end]`: trimmed, empty means 0,
/// `0x`/`0X` selects hexadecimal, any malformed field is an error.
pub(crate) fn parse_number_chars(v: &Vec<char>, start: usize, end: usize) -> (r: Result<
    u64,
    FirmwareError,
>)
    requires
        start <= end <= v@.len(),
    ensures
        match r {
            Ok(val) => parse_number_spec(v@.subrange(start as int, end as int)) == Some(val),
            Err(e) => parse_number_spec(v@.subrange(start as int, end as int)) is None && e
                is Parse,
        },
{
    let ghost s = v@.subrange(start as int, end as int);
    let (a, b) = trim_bounds(v, start, end);
    let ghost t = trimmed(s);
    if a == b {
        proof {
            assert(t =~= Seq::<char>::empty());
        }
        return Ok(0);
    }
    let digits = if b - a >= 2 && v[a] == '0' && (v[a + 1] == 'x' || v[a + 1] == 'X') {
        proof {
            assert(has_hex_prefix(t));
            assert(t.skip(2) =~= v@.subrange(a + 2, b as int));
        }
        parse_digits(v, a + 2, b, 16)
    } else {
        proof {
            assert(!has_hex_prefix(t));
        }
        parse_digits(v, a, b, 10)
    };
    match digits {
        Some(val) => Ok(val),
        None => Err(FirmwareError::Parse("failed to parse number".to_owned())),
    }
}

/// The characters of `s`, as a vector.
pub(crate) fn str_chars(s: &str) -> (r: Vec<char>)
    ensures
        r@ == s@,
{
    let n = s.unicode_len();
    let mut v: Vec<char> = Vec::new();
    let mut i: usize = 0;
    while i < n
        invariant
            i <= n == s@.len(),
            v@ == s@.take(i as int),
        decreases n - i,
    {
        let c = s.get_char(i);
        v.push(c);
        proof {
            assert(v@ =~= s@.take(i + 1));
        }
        i += 1;
    }
    proof {
        assert(s@.take(n as int) =~= s@);
    }
    v
}

/// Parses one numeric field: trimmed, empty means 0, a `0x`/`0X` prefix
/// selects hexadecimal, decimal otherwise; any malformed field is an error.
pub fn parse_number(s: &str) -> (r: Result<u64, FirmwareError>)
    ensures
        match r {
            Ok(val) => parse_number_spec(s@) == Some(val),
            Err(e) => parse_number_spec(s@) is None && e is Parse,
        },
{
    let v = str_chars(s);
    let n = v.len();
    proof {
        assert(v@.subrange(0, n as int) =~= s@);
    }
    parse_number_chars(&v, 0, n)
}

/// Law: a hexadecimal digit string behind a `0x` prefix and a decimal digit
/// string that denote the same value parse to the same number.
pub proof fn lemma_hex_decimal_agree(h: Seq<char>, d: Seq<char>)
    requires
        h.len() > 0,
        all_digits(h, 16),
        d.len() > 0,
        all_digits(d, 10),
        digits_value(h, 16) == digits_value(d, 10),
        digits_value(d, 10) <= u64::MAX,
    ensures
        parse_number_spec(seq!['0', 'x'] + h) == parse_number_spec(d),
        parse_number_spec(d) == Some(digits_value(d, 10) as u64),
{
    let hx = seq!['0', 'x'] + h;
    assert(hx[0] == '0' && hx[1] == 'x');
    assert(hx.last() == h.last() && is_digit(h.last(), 16));
    lemma_digit_not_space(hx.last());
    lemma_trim_front_skip(hx, 0);
    assert(hx.skip(0) =~= hx);
    lemma_trim_back_take(hx, hx.len() as int);
    assert(hx.take(hx.len() as int) =~= hx);
    assert(trimmed(hx) == hx);
    assert(has_hex_prefix(hx));
    assert(hx.skip(2) =~= h);

    assert(is_digit(d[0], 10) && is_digit(d.last(), 10));
    lemma_digit_not_space(d[0]);
    lemma_digit_not_space(d.last());
    lemma_trim_front_skip(d, 0);
    assert(d.skip(0) =~= d);
    lemma_trim_back_take(d, d.len() as int);
    assert(d.take(d.len() as int) =~= d);
    assert(trimmed(d) == d);
    if d.len() >= 2 {
        assert(is_digit(d[1], 10));
        assert(d[1] != 'x' && d[1] != 'X');
    }
    assert(!has_hex_prefix(d));
}

} // verus!
