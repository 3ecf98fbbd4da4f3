//! Numbers as text: decimal notation, how it is read back, and which texts
//! are floating-point literals.
use vstd::prelude::*;
use crate::text;

verus! {

/// The character of one decimal digit.
pub open spec fn digit(n: int) -> char {
    (48 + n) as char
}

/// `c` is a decimal digit.
pub open spec fn is_digit(c: char) -> bool {
    48 <= c as u32 <= 57
}

/// `s` holds decimal digits only.
pub open spec fn all_digits(s: Seq<char>) -> bool {
    forall|i: int| 0 <= i < s.len() ==> is_digit(#[trigger] s[i])
}

/// A natural number in decimal notation, without leading zeros.
pub open spec fn decimal(n: nat) -> Seq<char>
    decreases n,
{
    if n < 10 {
        seq![digit(n as int)]
    } else {
        decimal(n / 10).push(digit((n % 10) as int))
    }
}

/// A whole number in decimal notation.
pub open spec fn signed_decimal(n: int) -> Seq<char> {
    if n < 0 {
        seq!['-'] + decimal((-n) as nat)
    } else {
        decimal(n as nat)
    }
}

/// The number that a text of decimal digits stands for.
pub open spec fn digits_value(s: Seq<char>) -> nat
    decreases s.len(),
{
    if s.len() == 0 {
        0
    } else {
        digits_value(s.drop_last()) * 10 + (s.last() as u32 - 48) as nat
    }
}

/// The number up to `max` that a text of one or more digits stands for.
pub open spec fn bounded_value(s: Seq<char>, max: nat) -> Option<nat> {
    if s.len() > 0 && all_digits(s) && digits_value(s) <= max {
        Some(digits_value(s))
    } else {
        None
    }
}

/// Reads an unsigned number up to `max`: an optional `+`, then digits only.
pub open spec fn read_natural(s: Seq<char>, max: nat) -> Option<nat> {
    if s.len() > 0 && s[0] == '+' {
        bounded_value(s.skip(1), max)
    } else {
        bounded_value(s, max)
    }
}

/// Reads a 32-bit signed number: an optional sign, then digits only.
pub open spec fn read_i32(s: Seq<char>) -> Option<int> {
    if s.len() > 0 && s[0] == '-' {
        match bounded_value(s.skip(1), 0x8000_0000) {
            Some(n) => Some(-(n as int)),
            None => None,
        }
    } else {
        match read_natural(s, 0x7FFF_FFFF) {
            Some(n) => Some(n as int),
            None => None,
        }
    }
}

/// Decimal notation holds digits only, at least one, and reads back.
pub proof fn lemma_decimal(n: nat)
    ensures
        decimal(n).len() > 0,
        all_digits(decimal(n)),
        digits_value(decimal(n)) == n,
    decreases n,
{
    if n < 10 {
        assert(decimal(n).drop_last() =~= Seq::<char>::empty());
        assert(digits_value(decimal(n).drop_last()) == 0);
    } else {
        lemma_decimal(n / 10);
        assert(decimal(n).drop_last() =~= decimal(n / 10));
        assert(decimal(n).last() == digit((n % 10) as int));
        assert forall|i: int| 0 <= i < decimal(n).len() implies is_digit(
            #[trigger] decimal(n)[i],
        ) by {
            if i < decimal(n).len() - 1 {
                assert(decimal(n)[i] == decimal(n / 10)[i]);
            }
        }
    }
}

/// A number that fits is read back from its decimal notation.
pub proof fn lemma_natural_roundtrip(n: nat, max: nat)
    requires
        n <= max,
    ensures
        read_natural(decimal(n), max) == Some(n),
{
    lemma_decimal(n);
    assert(is_digit(decimal(n)[0]));
}

/// A 32-bit signed number is read back from its decimal notation.
pub proof fn lemma_i32_roundtrip(n: i32)
    ensures
        read_i32(signed_decimal(n as int)) == Some(n as int),
{
    if n < 0 {
        lemma_decimal((-n) as nat);
        assert(signed_decimal(n as int).skip(1) =~= decimal((-n) as nat));
    } else {
        lemma_natural_roundtrip(n as nat, 0x7FFF_FFFF);
        lemma_decimal(n as nat);
        assert(is_digit(decimal(n as nat)[0]));
    }
}

proof fn lemma_value_grows(s: Seq<char>, i: int)
    requires
        0 <= i <= s.len(),
        all_digits(s),
    ensures
        digits_value(s.take(i)) <= digits_value(s),
    decreases s.len() - i,
{
    if i < s.len() {
        lemma_value_grows(s, i + 1);
        assert(s.take(i + 1).drop_last() =~= s.take(i));
    } else {
        assert(s.take(i) =~= s);
    }
}

/// The decimal notation of a number.
pub fn decimal_text(n: u64) -> (r: Vec<char>)
    ensures
        r@ == decimal(n as nat),
    decreases n,
{
    let mut out: Vec<char> = if n < 10 {
        Vec::new()
    } else {
        decimal_text(n / 10)
    };
    let d: u8 = 48 + (n % 10) as u8;
    out.push(d as char);
    assert(out@ =~= decimal(n as nat));
    out
}

/// The decimal notation of a 32-bit signed number.
pub fn signed_decimal_text(n: i32) -> (r: Vec<char>)
    ensures
        r@ == signed_decimal(n as int),
{
    if n < 0 {
        let mut out: Vec<char> = Vec::new();
        out.push('-');
        let m: i64 = -(n as i64);
        let digits = decimal_text(m as u64);
        text::extend(&mut out, &digits);
        assert(out@ =~= signed_decimal(n as int));
        out
    } else {
        decimal_text(n as u64)
    }
}

/// Reads the digits from position `from` to the end as a number up to `max`.
fn bounded_digits(v: &Vec<char>, from: usize, max: u64) -> (r: Option<u64>)
    requires
        from <= v@.len(),
    ensures
        match r {
            Some(n) => bounded_value(v@.skip(from as int), max as nat) == Some(n as nat),
            None => bounded_value(v@.skip(from as int), max as nat) is None,
        },
{
    if from == v.len() {
        return None;
    }
    let ghost s = v@.skip(from as int);
    let mut total: u64 = 0;
    let mut i: usize = from;
    while i < v.len()
        invariant
            from <= i <= v@.len(),
            s == v@.skip(from as int),
            all_digits(s.take(i - from)),
            total == digits_value(s.take(i - from)),
            total <= max,
        decreases v.len() - i,
    {
        let c: u32 = v[i] as u32;
        assert(s[i - from] == v@[i as int]);
        if c < 48 || c > 57 {
            assert(!is_digit(s[i - from]));
            return None;
        }
        let d: u64 = (c - 48) as u64;
        let next: u128 = total as u128 * 10 + d as u128;
        proof {
            assert(s.take(i - from + 1).drop_last() =~= s.take(i - from));
            assert(s.take(i - from + 1).last() == s[i - from]);
            assert(next == digits_value(s.take(i - from + 1)));
            assert forall|j: int| 0 <= j < i - from + 1 implies is_digit(
                #[trigger] s.take(i - from + 1)[j],
            ) by {
                if j < i - from {
                    assert(s.take(i - from)[j] == s[j]);
                }
            }
        }
        if next > max as u128 {
            proof {
                if all_digits(s) {
                    lemma_value_grows(s, i - from + 1);
                }
            }
            return None;
        }
        total = next as u64;
        i += 1;
    }
    assert(s.take(i - from) =~= s);
    Some(total)
}

/// Reads an unsigned number up to `max`.
fn natural(v: &Vec<char>, max: u64) -> (r: Option<u64>)
    ensures
        match r {
            Some(n) => read_natural(v@, max as nat) == Some(n as nat),
            None => read_natural(v@, max as nat) is None,
        },
{
    assert(v@.skip(0) =~= v@);
    if v.len() > 0 && v[0] == '+' {
        bounded_digits(v, 1, max)
    } else {
        bounded_digits(v, 0, max)
    }
}

/// Reads a `u64`.
pub fn parse_u64(v: &Vec<char>) -> (r: Option<u64>)
    ensures
        match r {
            Some(n) => read_natural(v@, u64::MAX as nat) == Some(n as nat),
            None => read_natural(v@, u64::MAX as nat) is None,
        },
{
    natural(v, u64::MAX)
}

/// Reads a `usize`.
pub fn parse_usize(v: &Vec<char>) -> (r: Option<usize>)
    ensures
        match r {
            Some(n) => read_natural(v@, usize::MAX as nat) == Some(n as nat),
            None => read_natural(v@, usize::MAX as nat) is None,
        },
{
    match natural(v, usize::MAX as u64) {
        Some(n) => Some(n as usize),
        None => None,
    }
}

/// Reads an `i32`.
pub fn parse_i32(v: &Vec<char>) -> (r: Option<i32>)
    ensures
        match r {
            Some(n) => read_i32(v@) == Some(n as int),
            None => read_i32(v@) is None,
        },
{
    if v.len() > 0 && v[0] == '-' {
        match bounded_digits(v, 1, 0x8000_0000) {
            Some(n) => {
                let m: i64 = -(n as i64);
                Some(m as i32)
            },
            None => None,
        }
    } else {
        match natural(v, 0x7FFF_FFFF) {
            Some(n) => Some(n as i32),
            None => None,
        }
    }
}

/// An ASCII letter in lower case; any other character as it is.
pub open spec fn ascii_lower(c: char) -> char {
    if 65 <= c as u32 <= 90 {
        (c as u32 + 32) as char
    } else {
        c
    }
}

/// `s` with its ASCII letters in lower case.
pub open spec fn ascii_lowered(s: Seq<char>) -> Seq<char> {
    s.map_values(|c: char| ascii_lower(c))
}

/// `s` without one sign at its front.
pub open spec fn unsigned(s: Seq<char>) -> Seq<char> {
    if s.len() > 0 && (s[0] == '+' || s[0] == '-') {
        s.skip(1)
    } else {
        s
    }
}

/// Digits with at most one point among them, and at least one digit.
pub open spec fn is_mantissa(s: Seq<char>) -> bool {
    let p = text::first_at(s, '.');
    if p >= s.len() {
        s.len() > 0 && all_digits(s)
    } else {
        s.len() > 1 && all_digits(s.take(p)) && all_digits(s.skip(p + 1))
    }
}

/// A mantissa, then optionally an `e`, an optional sign and digits.
pub open spec fn is_plain_float(s: Seq<char>) -> bool {
    let t = ascii_lowered(s);
    let e = text::first_at(t, 'e');
    &&& is_mantissa(t.take(e))
    &&& e < t.len() ==> unsigned(t.skip(e + 1)).len() > 0 && all_digits(unsigned(t.skip(e + 1)))
}

/// A floating-point literal: an optional sign, then `inf`, `infinity`, `nan`
/// or a number, with ASCII letters in either case.
pub open spec fn is_float_literal(s: Seq<char>) -> bool {
    let t = ascii_lowered(unsigned(s));
    ||| t == "inf"@
    ||| t == "infinity"@
    ||| t == "nan"@
    ||| is_plain_float(unsigned(s))
}

fn lowered(v: &Vec<char>, from: usize) -> (r: Vec<char>)
    requires
        from <= v@.len(),
    ensures
        r@ == ascii_lowered(v@.skip(from as int)),
{
    let mut out: Vec<char> = Vec::new();
    let mut i: usize = from;
    while i < v.len()
        invariant
            from <= i <= v@.len(),
            out@ == ascii_lowered(v@.subrange(from as int, i as int)),
        decreases v.len() - i,
    {
        let c = v[i];
        let n: u32 = c as u32;
        if 65 <= n && n <= 90 {
            let m: u8 = n as u8 + 32;
            out.push(m as char);
        } else {
            out.push(c);
        }
        assert(out@ =~= ascii_lowered(v@.subrange(from as int, i + 1)));
        i += 1;
    }
    assert(v@.subrange(from as int, i as int) =~= v@.skip(from as int));
    out
}

fn only_digits(v: &Vec<char>, from: usize, to: usize) -> (r: bool)
    requires
        from <= to <= v@.len(),
    ensures
        r == all_digits(v@.subrange(from as int, to as int)),
{
    let ghost s = v@.subrange(from as int, to as int);
    let mut i: usize = from;
    while i < to
        invariant
            from <= i <= to <= v@.len(),
            s == v@.subrange(from as int, to as int),
            forall|j: int| 0 <= j < i - from ==> is_digit(#[trigger] s[j]),
        decreases to - i,
    {
        let c: u32 = v[i] as u32;
        if c < 48 || c > 57 {
            assert(!is_digit(s[i - from]));
            return false;
        }
        i += 1;
    }
    true
}

fn mantissa(v: &Vec<char>) -> (r: bool)
    ensures
        r == is_mantissa(v@),
{
    assert(v@.skip(0) =~= v@);
    let p: usize = text::find_from(v, '.', 0);
    if p == v.len() {
        assert(v@.subrange(0, v@.len() as int) =~= v@);
        v.len() > 0 && only_digits(v, 0, v.len())
    } else {
        assert(v@.subrange(0, p as int) =~= v@.take(p as int));
        assert(v@.subrange(p + 1, v@.len() as int) =~= v@.skip(p + 1));
        v.len() > 1 && only_digits(v, 0, p) && only_digits(v, p + 1, v.len())
    }
}

/// Whether a text is a floating-point literal.
pub fn float_literal(v: &Vec<char>) -> (r: bool)
    ensures
        r == is_float_literal(v@),
{
    let from: usize = if v.len() > 0 && (v[0] == '+' || v[0] == '-') {
        1
    } else {
        0
    };
    assert(v@.skip(from as int) =~= unsigned(v@));
    let t = lowered(v, from);
    if text::is_str(&t, "inf") || text::is_str(&t, "infinity") || text::is_str(&t, "nan") {
        return true;
    }
    assert(t@.skip(0) =~= t@);
    let e: usize = text::find_from(&t, 'e', 0);
    let m = text::part(&t, 0, e);
    assert(m@ =~= t@.take(e as int));
    if !mantissa(&m) {
        return false;
    }
    if e == t.len() {
        return true;
    }
    let start: usize = if e + 1 < t.len() && (t[e + 1] == '+' || t[e + 1] == '-') {
        e + 2
    } else {
        e + 1
    };
    assert(t@.subrange(start as int, t@.len() as int) =~= unsigned(t@.skip(e + 1)));
    start < t.len() && only_digits(&t, start, t.len())
}

/// A floating-point literal holds only signs, digits, points and letters.
pub proof fn lemma_float_literal_chars(s: Seq<char>)
    requires
        is_float_literal(s),
    ensures
        s.len() > 0,
        forall|i: int| 0 <= i < s.len() ==> 43 <= (#[trigger] s[i]) as u32 <= 122 && s[i] != '\\',
{
    reveal_strlit("inf");
    reveal_strlit("infinity");
    reveal_strlit("nan");
    let u = unsigned(s);
    let t = ascii_lowered(u);
    let e = text::first_at(t, 'e');
    text::lemma_first_at(t, 'e');
    let m = t.take(e);
    let p = text::first_at(m, '.');
    text::lemma_first_at(m, '.');
    assert forall|j: int| 0 <= j < t.len() implies 43 <= (#[trigger] t[j]) as u32 <= 122 && t[j]
        != '\\' && !(65 <= t[j] as u32 <= 90) by {
        if t != "inf"@ && t != "infinity"@ && t != "nan"@ {
            if j < e {
                assert(m[j] == t[j]);
                if j < p {
                    assert(m.take(p)[j] == t[j]);
                } else if j > p {
                    assert(m.skip(p + 1)[j - p - 1] == t[j]);
                }
            } else if j > e {
                let x = t.skip(e + 1);
                assert(x[j - e - 1] == t[j]);
                if unsigned(x).len() < x.len() && j > e + 1 {
                    assert(x.skip(1)[j - e - 2] == t[j]);
                }
            }
        }
    }
    assert(t.len() == u.len());
    assert forall|i: int| 0 <= i < s.len() implies 43 <= (#[trigger] s[i]) as u32 <= 122 && s[i]
        != '\\' by {
        let shift = s.len() - u.len();
        if i >= shift {
            assert(u[i - shift] == s[i]);
            assert(t[i - shift] == ascii_lower(s[i]));
        }
    }
}

// --------------------------------------------------------------------- laws

/// Digit by digit: one more digit makes ten of each one before it.
pub proof fn law_digits(s: Seq<char>, n: nat, d: nat)
    requires
        d < 10,
    ensures
        digits_value(s.push((48 + d) as char)) == digits_value(s) * 10 + d,
        n > 0 ==> decimal(n * 10 + d) == decimal(n).push((48 + d) as char),
        decimal(d) == seq![(48 + d) as char],
{
    let t = s.push((48 + d) as char);
    assert(t.drop_last() =~= s);
    if n > 0 {
        assert((n * 10 + d) / 10 == n);
        assert((n * 10 + d) % 10 == d as int);
    }
}

/// A number is read from one or more digits, with a plus sign before them or
/// without, where it is not too great; nothing is read from anything else.
pub proof fn law_read_natural(s: Seq<char>, max: nat)
    ensures
        s.len() > 0 && (forall|i: int| 0 <= i < s.len() ==> 48 <= (#[trigger] s[i]) as u32 <= 57) ==> {
            let n = if digits_value(s) <= max {
                Some(digits_value(s))
            } else {
                None
            };
            &&& read_natural(s, max) == n
            &&& read_natural(seq!['+'] + s, max) == n
        },
        s.len() == 0 ==> read_natural(s, max) is None && read_natural(seq!['+'] + s, max) is None,
        (exists|i: int|
            0 <= i < s.len() && !(48 <= (#[trigger] s[i]) as u32 <= 57) && (i > 0 || s[i] != '+'))
            ==> read_natural(s, max) is None,
        s.len() > 0 && s[0] == '+' ==> read_natural(seq!['+'] + s, max) is None,
{
    let t = seq!['+'] + s;
    assert(t.skip(1) =~= s);
    if s.len() > 0 && (forall|i: int| 0 <= i < s.len() ==> 48 <= (#[trigger] s[i]) as u32 <= 57) {
        assert(48 <= s[0] as u32 <= 57);
        assert(all_digits(s));
    }
    if exists|i: int|
        0 <= i < s.len() && !(48 <= (#[trigger] s[i]) as u32 <= 57) && (i > 0 || s[i] != '+') {
        let i = choose|i: int|
            0 <= i < s.len() && !(48 <= (#[trigger] s[i]) as u32 <= 57) && (i > 0 || s[i] != '+');
        assert(!is_digit(s[i]));
        if s[0] == '+' {
            assert(s.skip(1)[i - 1] == s[i]);
        }
    }
    if s.len() > 0 && s[0] == '+' {
        assert(!is_digit(s[0]));
    }
}

/// A signed number is read from digits with a sign before them or without, where
/// it has 32 bits.
pub proof fn law_read_i32(s: Seq<char>)
    ensures
        s.len() > 0 && (forall|i: int| 0 <= i < s.len() ==> 48 <= (#[trigger] s[i]) as u32 <= 57) ==> {
            let n = digits_value(s) as int;
            let plain = if n <= i32::MAX {
                Some(n)
            } else {
                None
            };
            &&& read_i32(s) == plain
            &&& read_i32(seq!['+'] + s) == plain
            &&& read_i32(seq!['-'] + s) == (if n <= i32::MAX + 1 {
                Some(-n)
            } else {
                None
            })
        },
        s.len() == 0 ==> read_i32(s) is None && read_i32(seq!['-'] + s) is None,
        (exists|i: int|
            0 <= i < s.len() && !(48 <= (#[trigger] s[i]) as u32 <= 57) && (i > 0 || s[i] != '+' && s[i]
                != '-')) ==> read_i32(s) is None,
{
    law_read_natural(s, 0x7FFF_FFFF);
    let t = seq!['-'] + s;
    assert(t.skip(1) =~= s);
    if s.len() > 0 && (forall|i: int| 0 <= i < s.len() ==> 48 <= (#[trigger] s[i]) as u32 <= 57) {
        assert(48 <= s[0] as u32 <= 57);
        assert(all_digits(s));
    }
    if exists|i: int|
        0 <= i < s.len() && !(48 <= (#[trigger] s[i]) as u32 <= 57) && (i > 0 || s[i] != '+' && s[i]
            != '-') {
        let i = choose|i: int|
            0 <= i < s.len() && !(48 <= (#[trigger] s[i]) as u32 <= 57) && (i > 0 || s[i] != '+' && s[i]
                != '-');
        if s[0] == '-' {
            assert(s.skip(1)[i - 1] == s[i]);
            assert(!is_digit(s.skip(1)[i - 1]));
        }
    }
}

/// Digits are a floating-point literal, with a sign or without; so are they with
/// an exponent behind an `e` in either case, with a sign or without, and not with
/// the `e` alone.
pub proof fn law_float_of_digits(
    sign: Seq<char>,
    whole: Seq<char>,
    mark: char,
    exp_sign: Seq<char>,
    exp: Seq<char>,
)
    requires
        sign.len() == 0 || sign == seq!['+'] || sign == seq!['-'],
        exp_sign.len() == 0 || exp_sign == seq!['+'] || exp_sign == seq!['-'],
        mark == 'e' || mark == 'E',
        all_digits(whole),
        all_digits(exp),
        whole.len() > 0,
        exp.len() > 0,
    ensures
        is_float_literal(sign + whole),
        is_float_literal(sign + (whole + seq![mark] + (exp_sign + exp))),
        !is_float_literal(sign + (whole + seq![mark] + Seq::<char>::empty())),
{
    assert(text::first_at(whole, '.') == whole.len()) by {
        text::lemma_first_at(whole, '.');
        let p = text::first_at(whole, '.');
        if p < whole.len() {
            assert(is_digit(whole[p]));
        }
    }
    assert(is_digit(whole[0]));
    lemma_plain_float(whole, mark, exp_sign, exp);
    lemma_no_sign(sign, whole);
    lemma_no_sign(sign, whole + seq![mark] + (exp_sign + exp));
    lemma_no_sign(sign, whole + seq![mark] + Seq::<char>::empty());
    lemma_not_named(whole + seq![mark] + Seq::<char>::empty());
}

/// Digits with a point before, among or behind them are a floating-point literal,
/// with a sign or without, with an exponent or without.
pub proof fn law_float_with_point(
    sign: Seq<char>,
    whole: Seq<char>,
    part: Seq<char>,
    mark: char,
    exp_sign: Seq<char>,
    exp: Seq<char>,
)
    requires
        sign.len() == 0 || sign == seq!['+'] || sign == seq!['-'],
        exp_sign.len() == 0 || exp_sign == seq!['+'] || exp_sign == seq!['-'],
        mark == 'e' || mark == 'E',
        all_digits(whole),
        all_digits(part),
        all_digits(exp),
        whole.len() + part.len() > 0,
        exp.len() > 0,
    ensures
        is_float_literal(sign + (whole + seq!['.'] + part)),
        is_float_literal(sign + (whole + seq!['.'] + part + seq![mark] + (exp_sign + exp))),
{
    let pointed = whole + seq!['.'] + part;
    let p = whole.len() as int;
    assert(is_mantissa(pointed)) by {
        assert forall|i: int| 0 <= i < p implies #[trigger] pointed[i] != '.' by {
            assert(is_digit(whole[i]));
        }
        text::lemma_first_at_is(pointed, '.', p);
        assert(pointed.take(p) =~= whole);
        assert(pointed.skip(p + 1) =~= part);
    }
    assert forall|i: int| 0 <= i < pointed.len() implies is_digit(#[trigger] pointed[i])
        || pointed[i] == '.' by {
        if i < p {
            assert(is_digit(whole[i]));
        } else if i > p {
            assert(is_digit(part[i - p - 1]));
        }
    }
    lemma_plain_float(pointed, mark, exp_sign, exp);
    lemma_no_sign(sign, pointed);
    lemma_no_sign(sign, pointed + seq![mark] + (exp_sign + exp));
}

/// Without a digit there is no number: neither a sign alone nor a point alone is
/// a floating-point literal.
pub proof fn law_float_needs_a_digit(sign: Seq<char>)
    requires
        sign.len() == 0 || sign == seq!['+'] || sign == seq!['-'],
    ensures
        !is_float_literal(sign),
        !is_float_literal(sign + seq!['.']),
{
    let none = Seq::<char>::empty();
    let point = seq!['.'];
    lemma_no_mantissa();
    lemma_no_sign(sign, point);
    if sign.len() == 0 {
        assert(unsigned(sign) =~= none);
    } else {
        assert(unsigned(sign) =~= none);
    }
}

proof fn lemma_no_mantissa()
    ensures
        ({
            let none = Seq::<char>::empty();
            let point = seq!['.'];
            &&& !is_plain_float(none) && !is_plain_float(point)
            &&& ascii_lowered(none).len() == 0
            &&& ascii_lowered(point) == point
            &&& "inf"@.len() == 3 && "infinity"@.len() == 8 && "nan"@.len() == 3
        }),
{
    let none = Seq::<char>::empty();
    let point = seq!['.'];
    reveal_strlit("inf");
    reveal_strlit("infinity");
    reveal_strlit("nan");
    assert(ascii_lowered(none) =~= none);
    assert(ascii_lowered(point) =~= point);
    text::lemma_first_at(none, 'e');
    text::lemma_first_at(point, 'e');
    text::lemma_first_at(point, '.');
    assert(text::first_at(point, 'e') == 1) by {
        if text::first_at(point, 'e') == 0 {
            assert(point[0] == 'e');
        }
    }
    assert(none.take(0) =~= none);
    assert(point.take(1) =~= point);
    assert(text::first_at(point, '.') == 0);
}

/// What does not begin with a sign is what a sign before it leaves.
proof fn lemma_no_sign(sign: Seq<char>, s: Seq<char>)
    requires
        sign.len() == 0 || sign == seq!['+'] || sign == seq!['-'],
        s.len() > 0,
        s[0] != '+' && s[0] != '-' || is_digit(s[0]),
    ensures
        unsigned(sign + s) == s,
{
    if sign.len() == 0 {
        assert(sign + s =~= s);
    } else {
        assert((sign + s).skip(1) =~= s);
    }
}

proof fn lemma_lowered_number(s: Seq<char>)
    requires
        forall|i: int| 0 <= i < s.len() ==> is_digit(#[trigger] s[i]) || s[i] == '.',
    ensures
        ascii_lowered(s) == s,
        !s.contains('e'),
{
    assert forall|i: int| 0 <= i < s.len() implies ascii_lowered(s)[i] == s[i] && s[i] != 'e' by {
        assert(is_digit(s[i]) || s[i] == '.');
    }
    assert(ascii_lowered(s) =~= s);
}

/// A text that ends in an `e` is no name of a number.
proof fn lemma_not_named(s: Seq<char>)
    requires
        s.len() > 0,
        s.last() == 'e' || s.last() == 'E',
    ensures
        ascii_lowered(s) != "inf"@,
        ascii_lowered(s) != "infinity"@,
        ascii_lowered(s) != "nan"@,
{
    reveal_strlit("inf");
    reveal_strlit("infinity");
    reveal_strlit("nan");
    let t = ascii_lowered(s);
    assert(t[t.len() - 1] == ascii_lower(s.last()));
    assert(ascii_lower('E') == 'e');
}

proof fn lemma_plain_float(m: Seq<char>, mark: char, exp_sign: Seq<char>, exp: Seq<char>)
    requires
        m.len() > 0,
        forall|i: int| 0 <= i < m.len() ==> is_digit(#[trigger] m[i]) || m[i] == '.',
        is_mantissa(m),
        mark == 'e' || mark == 'E',
        exp_sign.len() == 0 || exp_sign == seq!['+'] || exp_sign == seq!['-'],
        all_digits(exp),
        exp.len() > 0,
    ensures
        is_plain_float(m),
        is_plain_float(m + seq![mark] + (exp_sign + exp)),
        !is_plain_float(m + seq![mark] + Seq::<char>::empty()),
{
    let n = m.len() as int;
    lemma_lowered_number(m);
    text::lemma_first_at(m, 'e');
    if text::first_at(m, 'e') < n {
        assert(m.contains(m[text::first_at(m, 'e')]));
    }
    assert(m.take(n) =~= m);
    assert(ascii_lower('E') == 'e');
    assert(ascii_lower('e') == 'e');
    let tail = exp_sign + exp;
    let s = m + seq![mark] + tail;
    let t = ascii_lowered(s);
    assert forall|i: int| 0 <= i < n implies #[trigger] t[i] != 'e' by {
        assert(t[i] == ascii_lower(m[i]));
        assert(ascii_lowered(m)[i] == m[i]);
        assert(m.contains(m[i]));
    }
    assert(t[n] == 'e');
    text::lemma_first_at_is(t, 'e', n);
    assert(t.take(n) =~= ascii_lowered(m));
    assert forall|i: int| 0 <= i < tail.len() implies ascii_lower(#[trigger] tail[i])
        == tail[i] by {
        if i >= exp_sign.len() {
            assert(is_digit(exp[i - exp_sign.len()]));
        }
    }
    assert(t.skip(n + 1) =~= tail);
    lemma_no_sign(exp_sign, exp);
    let cut = m + seq![mark] + Seq::<char>::empty();
    let c = ascii_lowered(cut);
    assert forall|i: int| 0 <= i < n implies #[trigger] c[i] != 'e' by {
        assert(c[i] == ascii_lower(m[i]));
        assert(ascii_lowered(m)[i] == m[i]);
        assert(m.contains(m[i]));
    }
    text::lemma_first_at_is(c, 'e', n);
    assert(c.skip(n + 1) =~= Seq::<char>::empty());
}

/// The names of what is no finite number are floating-point literals, with a
/// sign or without, and letters in either case mean the same.
pub proof fn law_float_names(sign: Seq<char>)
    requires
        sign.len() == 0 || sign == seq!['+'] || sign == seq!['-'],
    ensures
        is_float_literal(sign + "inf"@),
        is_float_literal(sign + "infinity"@),
        is_float_literal(sign + "nan"@),
        is_float_literal(sign + "NaN"@),
        is_float_literal(sign + "Infinity"@),
{
    reveal_strlit("inf");
    reveal_strlit("infinity");
    reveal_strlit("nan");
    reveal_strlit("NaN");
    reveal_strlit("Infinity");
    lemma_no_sign(sign, "inf"@);
    lemma_no_sign(sign, "infinity"@);
    lemma_no_sign(sign, "nan"@);
    lemma_no_sign(sign, "NaN"@);
    lemma_no_sign(sign, "Infinity"@);
    assert(ascii_lowered("inf"@) =~= "inf"@);
    assert(ascii_lowered("infinity"@) =~= "infinity"@);
    assert(ascii_lowered("nan"@) =~= "nan"@);
    assert(ascii_lowered("NaN"@) =~= "nan"@);
    assert(ascii_lowered("Infinity"@) =~= "infinity"@);
}

} // verus!
