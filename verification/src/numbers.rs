//! Whole numbers written in decimal, read back, and the words that read
//! as decimal numbers with a fraction or an exponent.

use vstd::prelude::*;

verus! {

/// `c` is one of `0` to `9`.
pub open spec fn is_digit(c: char) -> bool {
    48 <= (c as u32) <= 57
}

/// The digit that stands for `d`, from 0 to 9.
pub open spec fn digit_char(d: int) -> char {
    (d + 48) as char
}

/// The number a digit stands for.
pub open spec fn digit_value(c: char) -> int {
    (c as u32) - 48
}

/// `n` in decimal, with no leading zeros.
pub open spec fn nat_text(n: nat) -> Seq<char>
    decreases n,
{
    if n < 10 {
        seq![digit_char(n as int)]
    } else {
        nat_text(n / 10).push(digit_char((n % 10) as int))
    }
}

/// `n` in decimal, with a `-` in front when it is negative.
pub open spec fn int_text(n: int) -> Seq<char> {
    if n < 0 {
        seq!['-'] + nat_text((-n) as nat)
    } else {
        nat_text(n as nat)
    }
}

/// Every character of `t` is a digit.
pub open spec fn all_digits(t: Seq<char>) -> bool {
    forall|i: int| 0 <= i < t.len() ==> #[trigger] is_digit(t[i])
}

/// The number the digits of `t` spell, the last digit counting ones.
pub open spec fn digits_value(t: Seq<char>) -> nat
    decreases t.len(),
{
    if t.len() == 0 {
        0
    } else {
        digits_value(t.drop_last()) * 10 + digit_value(t.last()) as nat
    }
}

/// The whole number `t` spells: one or more digits after an optional `+`,
/// or, when `signed`, an optional `-`.
pub open spec fn int_of(t: Seq<char>, signed: bool) -> Option<int> {
    if t.len() > 1 && t[0] == '-' && signed && all_digits(t.drop_first()) {
        Some(-(digits_value(t.drop_first()) as int))
    } else if t.len() > 1 && t[0] == '+' && all_digits(t.drop_first()) {
        Some(digits_value(t.drop_first()) as int)
    } else if t.len() > 0 && all_digits(t) {
        Some(digits_value(t) as int)
    } else {
        None
    }
}

/// What reading `t` as an `i32` gives: its number, if it spells one that
/// fits.
pub open spec fn i32_of(t: Seq<char>) -> Option<i32> {
    match int_of(t, true) {
        Some(v) => if i32::MIN <= v <= i32::MAX { Some(v as i32) } else { None },
        None => None,
    }
}

/// What reading `t` as a `u8` gives: its number, if it spells one from 0
/// to 255.
pub open spec fn u8_of(t: Seq<char>) -> Option<u8> {
    match int_of(t, false) {
        Some(v) => if 0 <= v <= 255 { Some(v as u8) } else { None },
        None => None,
    }
}

/// `c` is `e` or `E`.
pub open spec fn is_e(c: char) -> bool {
    c == 'e' || c == 'E'
}

/// Digits with at most one `.` among them, and at least one digit.
pub open spec fn is_mantissa(m: Seq<char>) -> bool {
    ||| m.len() >= 1 && all_digits(m)
    ||| exists|k: int| 0 <= k < m.len() && #[trigger] m[k] == '.' && all_digits(m.take(k)) && all_digits(m.skip(k + 1)) && m.len() >= 2
}

/// One or more digits after an optional sign.
pub open spec fn is_exponent(x: Seq<char>) -> bool {
    if x.len() > 0 && (x[0] == '+' || x[0] == '-') {
        x.len() > 1 && all_digits(x.drop_first())
    } else {
        x.len() > 0 && all_digits(x)
    }
}

/// A mantissa, then perhaps `e` and an exponent.
pub open spec fn is_number(u: Seq<char>) -> bool {
    ||| is_mantissa(u)
    ||| exists|k: int| 0 <= k < u.len() && is_e(#[trigger] u[k]) && is_mantissa(u.take(k)) && is_exponent(u.skip(k + 1))
}

/// The letter in lower case, for `A` to `Z`; any other character as it is.
pub open spec fn lower(c: char) -> char {
    if 65 <= (c as u32) <= 90 {
        ((c as u32) + 32) as char
    } else {
        c
    }
}

/// `t` is `w` with any of its letters in upper case.
pub open spec fn same_word(t: Seq<char>, w: Seq<char>) -> bool {
    t.len() == w.len() && forall|i: int| 0 <= i < t.len() ==> #[trigger] lower(t[i]) == w[i]
}

/// The decimal numbers that std's `f64` reads: an optional sign, then
/// `inf`, `infinity`, `nan` in any case, or a number such as `4.7`, `.5`,
/// `3.` or `1e-6`.
pub open spec fn is_float(t: Seq<char>) -> bool {
    let u = if t.len() > 0 && (t[0] == '+' || t[0] == '-') { t.drop_first() } else { t };
    ||| same_word(u, "inf"@)
    ||| same_word(u, "infinity"@)
    ||| same_word(u, "nan"@)
    ||| is_number(u)
}

/// One or more digits read as a number.
pub proof fn lemma_digits_read(t: Seq<char>)
    requires
        t.len() >= 1,
        all_digits(t),
    ensures
        is_float(t),
{
    assert(is_digit(t[0]));
    assert(is_mantissa(t));
}

/// Digits with a point among them read as a number.
pub proof fn lemma_point_read(t: Seq<char>, k: int)
    requires
        0 <= k < t.len(),
        t.len() >= 2,
        t[k] == '.',
        all_digits(t.take(k)),
        all_digits(t.skip(k + 1)),
    ensures
        is_float(t),
{
    if k > 0 {
        assert(t.take(k)[0] == t[0]);
        assert(is_digit(t[0]));
    }
    assert(is_mantissa(t));
}

/// Appends `n` in decimal.
pub fn push_nat(v: &mut Vec<char>, n: u64)
    ensures
        final(v)@ == old(v)@ + nat_text(n as nat),
    decreases n,
{
    if n >= 10 {
        push_nat(v, n / 10);
    }
    let d = (n % 10) as u32;
    let c = char_of_digit(d);
    v.push(c);
    proof {
        if n >= 10 {
            assert(nat_text(n as nat) == nat_text((n / 10) as nat).push(digit_char((n % 10) as int)));
        }
    }
}

/// The digit for `d`.
fn char_of_digit(d: u32) -> (c: char)
    requires
        d < 10,
    ensures
        c == digit_char(d as int),
        is_digit(c),
        digit_value(c) == d,
{
    let c = match d {
        0 => '0',
        1 => '1',
        2 => '2',
        3 => '3',
        4 => '4',
        5 => '5',
        6 => '6',
        7 => '7',
        8 => '8',
        _ => '9',
    };
    c
}

/// Appends `n` in decimal, with a `-` in front when it is negative.
pub fn push_int(v: &mut Vec<char>, n: i32)
    ensures
        final(v)@ == old(v)@ + int_text(n as int),
{
    if n < 0 {
        v.push('-');
        let m: i64 = -(n as i64);
        push_nat(v, m as u64);
        proof {
            assert(final(v)@ =~= old(v)@ + int_text(n as int));
        }
    } else {
        push_nat(v, n as u64);
    }
}

/// The number the digits `t[start..]` spell, if they are one or more
/// digits and the number is at most `cap`.
fn digits_upto(t: &Vec<char>, start: usize, cap: u64) -> (r: Option<u64>)
    requires
        start <= t@.len(),
        cap <= 0x1_0000_0000,
    ensures
        r == (if t@.len() > start && all_digits(t@.skip(start as int)) && digits_value(t@.skip(start as int)) <= cap {
            Some(digits_value(t@.skip(start as int)) as u64)
        } else {
            None
        }),
{
    if start >= t.len() {
        return None;
    }
    let ghost s = t@.skip(start as int);
    let mut acc: u64 = 0;
    let mut i: usize = start;
    while i < t.len()
        invariant
            start <= i <= t@.len(),
            s == t@.skip(start as int),
            cap <= 0x1_0000_0000,
            all_digits(t@.subrange(start as int, i as int)),
            acc == digits_value(t@.subrange(start as int, i as int)),
            acc <= cap,
        decreases t@.len() - i,
    {
        let c = t[i];
        let code = c as u32;
        if code < 48 || code > 57 {
            proof {
                assert(s[i - start] == c);
                assert(!is_digit(s[i - start]));
            }
            return None;
        }
        let d = (code - 48) as u64;
        proof {
            let p = t@.subrange(start as int, i + 1);
            assert(p.drop_last() =~= t@.subrange(start as int, i as int));
            assert(p.last() == c);
            assert(digits_value(p) == acc * 10 + d);
        }
        let next = acc * 10 + d;
        if next > cap {
            proof {
                lemma_prefix_value(s, (i + 1 - start) as int);
                assert(t@.subrange(start as int, i + 1) =~= s.take(i + 1 - start));
            }
            return None;
        }
        acc = next;
        i = i + 1;
    }
    proof {
        assert(t@.subrange(start as int, t@.len() as int) =~= s);
    }
    Some(acc)
}

/// A number's digits are worth no less than any of their beginnings.
proof fn lemma_prefix_value(s: Seq<char>, k: int)
    requires
        0 <= k <= s.len(),
    ensures
        all_digits(s) ==> digits_value(s.take(k)) <= digits_value(s),
    decreases s.len() - k,
{
    if k < s.len() && all_digits(s) {
        lemma_prefix_value(s, k + 1);
        let p = s.take(k + 1);
        assert(p.drop_last() =~= s.take(k));
        assert(is_digit(s[k]));
        assert(p.last() == s[k]);
    } else if k == s.len() {
        assert(s.take(k) =~= s);
    }
}

/// Reads the characters of `t` as an `i32`, as std's `str::parse` does.
pub fn parse_i32(t: &Vec<char>) -> (r: Option<i32>)
    ensures
        r == i32_of(t@),
{
    if t.len() > 1 && t[0] == '-' {
        proof {
            assert(t@.skip(1) =~= t@.drop_first());
        }
        match digits_upto(t, 1, 0x8000_0000) {
            Some(v) => {
                let r: i64 = -(v as i64);
                Some(r as i32)
            },
            None => None,
        }
    } else if t.len() > 1 && t[0] == '+' {
        proof {
            assert(t@.skip(1) =~= t@.drop_first());
        }
        match digits_upto(t, 1, 0x7fff_ffff) {
            Some(v) => Some(v as i32),
            None => None,
        }
    } else {
        proof {
            assert(t@.skip(0) =~= t@);
            if t@.len() > 0 && all_digits(t@) && t@.len() > 1 {
                assert(is_digit(t@[0]));
            }
        }
        match digits_upto(t, 0, 0x7fff_ffff) {
            Some(v) => Some(v as i32),
            None => None,
        }
    }
}

/// Reads the characters of `t` as a `u8`, as std's `str::parse` does.
pub fn parse_u8(t: &Vec<char>) -> (r: Option<u8>)
    ensures
        r == u8_of(t@),
{
    if t.len() > 1 && t[0] == '+' {
        proof {
            assert(t@.skip(1) =~= t@.drop_first());
        }
        match digits_upto(t, 1, 255) {
            Some(v) => Some(v as u8),
            None => None,
        }
    } else {
        proof {
            assert(t@.skip(0) =~= t@);
            if t@.len() > 0 && t@[0] == '-' {
                assert(!is_digit(t@[0]));
            }
        }
        match digits_upto(t, 0, 255) {
            Some(v) => Some(v as u8),
            None => None,
        }
    }
}

/// Decimal text reads back as the number it was written from.
pub proof fn lemma_nat_text(n: nat)
    ensures
        all_digits(nat_text(n)),
        digits_value(nat_text(n)) == n,
        nat_text(n).len() >= 1,
        is_digit(nat_text(n)[0]),
    decreases n,
{
    if n >= 10 {
        lemma_nat_text(n / 10);
        let t = nat_text(n);
        assert(t.drop_last() =~= nat_text(n / 10));
        assert(t[0] == nat_text(n / 10)[0]);
        assert(t.last() == digit_char((n % 10) as int));
        assert(digit_value(t.last()) == n % 10);
        assert((n / 10) * 10 + n % 10 == n) by (nonlinear_arith);
        assert(digits_value(t) == digits_value(nat_text(n / 10)) * 10 + n % 10);
    } else {
        let t = nat_text(n);
        assert(t.drop_last() =~= Seq::<char>::empty());
        assert(digits_value(t.drop_last()) == 0);
        assert(digit_value(t.last()) == n);
    }
}

/// A number written in decimal reads back as itself.
pub proof fn lemma_int_text(n: int)
    ensures
        int_of(int_text(n), true) == Some(n),
        n >= 0 ==> int_of(int_text(n), false) == Some(n),
        int_text(n).len() >= 1,
        forall|i: int| 0 <= i < int_text(n).len() ==> is_digit(#[trigger] int_text(n)[i]) || int_text(n)[i] == '-',
{
    if n < 0 {
        lemma_nat_text((-n) as nat);
        let t = int_text(n);
        assert(t.drop_first() =~= nat_text((-n) as nat));
    } else {
        lemma_nat_text(n as nat);
        assert(!(int_text(n)[0] == '-'));
        assert(!(int_text(n)[0] == '+'));
    }
}

/// Whether `t[lo..hi]` is all digits.
fn digits_between(t: &Vec<char>, lo: usize, hi: usize) -> (r: bool)
    requires
        lo <= hi <= t@.len(),
    ensures
        r == all_digits(t@.subrange(lo as int, hi as int)),
{
    let mut i = lo;
    while i < hi
        invariant
            lo <= i <= hi <= t@.len(),
            all_digits(t@.subrange(lo as int, i as int)),
        decreases hi - i,
    {
        let code = t[i] as u32;
        if code < 48 || code > 57 {
            proof {
                assert(t@.subrange(lo as int, hi as int)[i - lo] == t@[i as int]);
                assert(!is_digit(t@.subrange(lo as int, hi as int)[i - lo]));
            }
            return false;
        }
        proof {
            assert forall|j: int| 0 <= j < i + 1 - lo implies #[trigger] is_digit(t@.subrange(lo as int, i + 1)[j]) by {
                if j < i - lo {
                    assert(t@.subrange(lo as int, i + 1)[j] == t@.subrange(lo as int, i as int)[j]);
                }
            }
        }
        i = i + 1;
    }
    true
}

/// The first position in `t[lo..hi]` that holds `a` or `b`, or `hi`.
fn find_either(t: &Vec<char>, lo: usize, hi: usize, a: char, b: char) -> (k: usize)
    requires
        lo <= hi <= t@.len(),
    ensures
        lo <= k <= hi,
        k < hi ==> t@[k as int] == a || t@[k as int] == b,
        forall|j: int| lo <= j < k ==> t@[j] != a && t@[j] != b,
{
    let mut k = lo;
    while k < hi && t[k] != a && t[k] != b
        invariant
            lo <= k <= hi <= t@.len(),
            forall|j: int| lo <= j < k ==> t@[j] != a && t@[j] != b,
        decreases hi - k,
    {
        k = k + 1;
    }
    k
}

/// Whether `t[lo..hi]` is a mantissa.
fn mantissa_between(t: &Vec<char>, lo: usize, hi: usize) -> (r: bool)
    requires
        lo <= hi <= t@.len(),
    ensures
        r == is_mantissa(t@.subrange(lo as int, hi as int)),
{
    let ghost m = t@.subrange(lo as int, hi as int);
    let k = find_either(t, lo, hi, '.', '.');
    if k == hi {
        let r = hi - lo >= 1 && digits_between(t, lo, hi);
        proof {
            if exists|j: int| 0 <= j < m.len() && #[trigger] m[j] == '.' && all_digits(m.take(j)) && all_digits(m.skip(j + 1)) && m.len() >= 2 {
                let j = choose|j: int| 0 <= j < m.len() && #[trigger] m[j] == '.' && all_digits(m.take(j)) && all_digits(m.skip(j + 1)) && m.len() >= 2;
                assert(t@[lo + j] == '.');
            }
        }
        r
    } else {
        let a = digits_between(t, lo, k);
        let b = digits_between(t, k + 1, hi);
        let r = hi - lo >= 2 && a && b;
        proof {
            let kk = k - lo;
            assert(m[kk] == '.');
            assert(!all_digits(m)) by {
                assert(!is_digit(m[kk]));
            }
            assert(m.take(kk) =~= t@.subrange(lo as int, k as int));
            assert(m.skip(kk + 1) =~= t@.subrange(k + 1, hi as int));
            if exists|j: int| 0 <= j < m.len() && #[trigger] m[j] == '.' && all_digits(m.take(j)) && all_digits(m.skip(j + 1)) && m.len() >= 2 {
                let j = choose|j: int| 0 <= j < m.len() && #[trigger] m[j] == '.' && all_digits(m.take(j)) && all_digits(m.skip(j + 1)) && m.len() >= 2;
                if j > kk {
                    assert(m.take(j)[kk] == '.');
                    assert(!is_digit(m.take(j)[kk]));
                }
                assert(j >= kk) by {
                    if j < kk {
                        assert(t@[lo + j] == '.');
                    }
                }
            }
        }
        r
    }
}

/// Whether `t[lo..hi]` is an exponent.
fn exponent_between(t: &Vec<char>, lo: usize, hi: usize) -> (r: bool)
    requires
        lo <= hi <= t@.len(),
    ensures
        r == is_exponent(t@.subrange(lo as int, hi as int)),
{
    let ghost x = t@.subrange(lo as int, hi as int);
    if hi > lo && (t[lo] == '+' || t[lo] == '-') {
        proof {
            assert(x.drop_first() =~= t@.subrange(lo + 1, hi as int));
        }
        hi - lo > 1 && digits_between(t, lo + 1, hi)
    } else {
        hi > lo && digits_between(t, lo, hi)
    }
}

/// Whether `t[lo..hi]` is a number.
fn number_between(t: &Vec<char>, lo: usize, hi: usize) -> (r: bool)
    requires
        lo <= hi <= t@.len(),
    ensures
        r == is_number(t@.subrange(lo as int, hi as int)),
{
    let ghost u = t@.subrange(lo as int, hi as int);
    let k = find_either(t, lo, hi, 'e', 'E');
    if k == hi {
        let r = mantissa_between(t, lo, hi);
        proof {
            if exists|j: int| 0 <= j < u.len() && is_e(#[trigger] u[j]) && is_mantissa(u.take(j)) && is_exponent(u.skip(j + 1)) {
                let j = choose|j: int| 0 <= j < u.len() && is_e(#[trigger] u[j]) && is_mantissa(u.take(j)) && is_exponent(u.skip(j + 1));
                assert(t@[lo + j] == u[j]);
            }
        }
        r
    } else {
        let a = mantissa_between(t, lo, k);
        let b = exponent_between(t, k + 1, hi);
        proof {
            let kk = k - lo;
            assert(is_e(u[kk]));
            lemma_mantissa_has_no_e(u);
            assert(u.take(kk) =~= t@.subrange(lo as int, k as int));
            assert(u.skip(kk + 1) =~= t@.subrange(k + 1, hi as int));
            if exists|j: int| 0 <= j < u.len() && is_e(#[trigger] u[j]) && is_mantissa(u.take(j)) && is_exponent(u.skip(j + 1)) {
                let j = choose|j: int| 0 <= j < u.len() && is_e(#[trigger] u[j]) && is_mantissa(u.take(j)) && is_exponent(u.skip(j + 1));
                assert(j >= kk) by {
                    if j < kk {
                        assert(t@[lo + j] == u[j]);
                    }
                }
                if j > kk {
                    assert(u.take(j)[kk] == u[kk]);
                    lemma_mantissa_has_no_e(u.take(j));
                }
            }
            if a && b {
                assert(is_e(u[kk]) && is_mantissa(u.take(kk)) && is_exponent(u.skip(kk + 1)));
            }
        }
        a && b
    }
}

/// A mantissa holds no `e`.
proof fn lemma_mantissa_has_no_e(m: Seq<char>)
    ensures
        is_mantissa(m) ==> forall|i: int| 0 <= i < m.len() ==> !is_e(#[trigger] m[i]),
{
    if is_mantissa(m) {
        assert forall|i: int| 0 <= i < m.len() implies !is_e(#[trigger] m[i]) by {
            if all_digits(m) {
                assert(is_digit(m[i]));
            } else {
                let k = choose|k: int| 0 <= k < m.len() && #[trigger] m[k] == '.' && all_digits(m.take(k)) && all_digits(m.skip(k + 1)) && m.len() >= 2;
                if i < k {
                    assert(is_digit(m.take(k)[i]));
                } else if i > k {
                    assert(is_digit(m.skip(k + 1)[i - k - 1]));
                }
            }
        }
    }
}

/// Whether `t[lo..]` is the word `w` with any of its letters in upper case;
/// `w` is all lower-case letters.
fn same_word_from(t: &Vec<char>, lo: usize, w: &str) -> (r: bool)
    requires
        lo <= t@.len(),
        forall|i: int| 0 <= i < w@.len() ==> 97 <= (#[trigger] w@[i] as u32) <= 122,
    ensures
        r == same_word(t@.skip(lo as int), w@),
{
    let wv = crate::chars::chars_of(w);
    if t.len() - lo != wv.len() {
        return false;
    }
    let tl = t.len();
    let mut i: usize = 0;
    while i < wv.len()
        invariant
            tl == t@.len(),
            lo <= t@.len(),
            lo + wv@.len() == t@.len(),
            wv@ == w@,
            forall|j: int| 0 <= j < w@.len() ==> 97 <= (#[trigger] w@[j] as u32) <= 122,
            i <= wv@.len(),
            forall|j: int| 0 <= j < i ==> #[trigger] lower(t@.skip(lo as int)[j]) == w@[j],
        decreases wv@.len() - i,
    {
        let c = t[lo + i] as u32;
        let d = wv[i] as u32;
        let ok = c == d || (65 <= c && c <= 90 && c + 32 == d);
        proof {
            let tc = t@.skip(lo as int)[i as int];
            assert(tc == t@[lo + i]);
            assert(ok == (lower(tc) == w@[i as int])) by {
                vstd::utf8::char_u32_cast(w@[i as int], d);
                vstd::utf8::char_u32_cast(tc, c);
                if 65 <= c <= 90 {
                    assert(lower(tc) == ((c + 32) as char));
                    if c + 32 == d {
                        assert(lower(tc) == w@[i as int]);
                    }
                    if lower(tc) == w@[i as int] {
                        vstd::utf8::char_u32_cast(lower(tc), (c + 32) as u32);
                    }
                }
            }
        }
        if !ok {
            return false;
        }
        i = i + 1;
    }
    true
}

/// Whether the characters of `t` read as an `f64`, as std's `str::parse`
/// has them.
pub fn is_float_word(t: &Vec<char>) -> (r: bool)
    ensures
        r == is_float(t@),
{
    let lo: usize = if t.len() > 0 && (t[0] == '+' || t[0] == '-') { 1 } else { 0 };
    let ghost u = if t@.len() > 0 && (t@[0] == '+' || t@[0] == '-') { t@.drop_first() } else { t@ };
    proof {
        assert(t@.skip(lo as int) =~= u);
        assert(t@.subrange(lo as int, t@.len() as int) =~= u);
        reveal_strlit("inf");
        reveal_strlit("infinity");
        reveal_strlit("nan");
    }
    same_word_from(t, lo, "inf") || same_word_from(t, lo, "infinity") || same_word_from(t, lo, "nan")
        || number_between(t, lo, t.len())
}

} // verus!
