//! Rendering numbers as text.

use vstd::prelude::*;
use std::ops::RangeInclusive;

verus! {

/// The letter for a digit `d < 26`: `A` for 0 up to `Z` for 25.
pub open spec fn letter(d: nat) -> char {
    ((65 + d) as u8) as char
}

/// Bijective base-26 numeral of `n` written with the letters `A`–`Z`
/// (1 is `A`, 26 is `Z`, 27 is `AA`); empty for 0.
pub open spec fn letters(n: nat) -> Seq<char>
    decreases n,
{
    if n == 0 {
        seq![]
    } else {
        letters(((n - 1) / 26) as nat).push(letter(((n - 1) % 26) as nat))
    }
}

/// How `int_to_letters` writes `n`: the digit `0` for 0, else `letters(n)`.
pub open spec fn letters_text(n: nat) -> Seq<char> {
    if n == 0 { seq!['0'] } else { letters(n) }
}

/// `int_to_letters` writes different numbers differently.
pub proof fn lemma_letters_text_injective(n: nat, m: nat)
    ensures
        letters_text(n) == letters_text(m) ==> n == m,
{
    lemma_letters_injective(n, m);
    if n > 0 && m == 0 && letters_text(n) == letters_text(m) {
        let r = ((n - 1) % 26) as nat;
        assert(letters(n).last() == letter(r));
        assert(letter(r) as int == 65 + r);
        assert(seq!['0'].last() == '0');
    }
    if m > 0 && n == 0 && letters_text(n) == letters_text(m) {
        let r = ((m - 1) % 26) as nat;
        assert(letters(m).last() == letter(r));
        assert(letter(r) as int == 65 + r);
        assert(seq!['0'].last() == '0');
    }
}

proof fn lemma_letters_len(n: nat)
    ensures
        (letters(n).len() == 0) == (n == 0),
{
}

/// Different numbers are written with different letters.
pub proof fn lemma_letters_injective(n: nat, m: nat)
    ensures
        letters(n) == letters(m) ==> n == m,
    decreases n,
{
    lemma_letters_len(n);
    lemma_letters_len(m);
    if letters(n) == letters(m) && n > 0 && m > 0 {
        let qn = ((n - 1) / 26) as nat;
        let qm = ((m - 1) / 26) as nat;
        let rn = ((n - 1) % 26) as nat;
        let rm = ((m - 1) % 26) as nat;
        assert(letters(n).last() == letter(rn));
        assert(letters(m).last() == letter(rm));
        assert(rn == rm) by {
            assert(letter(rn) as int == 65 + rn);
            assert(letter(rm) as int == 65 + rm);
        }
        assert(letters(n).drop_last() == letters(qn));
        assert(letters(m).drop_last() == letters(qm));
        lemma_letters_injective(qn, qm);
    }
}

/// Writes a number as letters: `A` for 1, ..., `Z` for 26, `AA` for 27, and so
/// on; `0` is written as the digit `0`.
pub fn int_to_letters(num: u64) -> (s: String)
    ensures
        s@ == letters_text(num as nat),
{
    if num == 0 {
        let mut s = String::new();
        s.push('0');
        return s;
    }
    let mut num = num;
    let ghost orig = num as nat;
    let mut chars: Vec<char> = Vec::new();
    while num > 0
        invariant
            letters(orig) == letters(num as nat) + chars@.reverse(),
        decreases num,
    {
        let ghost before = num as nat;
        num -= 1;
        let c = (65u8 + (num % 26) as u8) as char;
        assert(c == letter(((before - 1) % 26) as nat));
        chars.push(c);
        num /= 26;
        proof {
            assert(letters(before) == letters(num as nat).push(c));
            assert(chars@.reverse() == seq![c] + chars@.drop_last().reverse()) by {
                assert(chars@.drop_last().reverse() == chars@.reverse().drop_first());
            }
            assert(letters(orig) == letters(num as nat) + chars@.reverse());
        }
    }
    let mut s = String::new();
    let mut i = chars.len();
    while i > 0
        invariant
            i <= chars@.len(),
            s@ == chars@.reverse().take((chars@.len() - i) as int),
        decreases i,
    {
        i -= 1;
        s.push(chars[i]);
        assert(chars@.reverse().take((chars@.len() - i) as int)
            == chars@.reverse().take((chars@.len() - i - 1) as int).push(chars@[i as int]));
    }
    assert(chars@.reverse().take(chars@.len() as int) == chars@.reverse());
    s
}


/// The character for digit `d` (`0`–`9`, then `A`–`F`).
pub open spec fn digit_char(d: nat) -> char {
    if d < 10 {
        ((48 + d) as u8) as char
    } else {
        ((55 + d) as u8) as char
    }
}

/// The digits of `n` in base `b` (2..=16), most significant first, without
/// leading zeros; `0` for zero.
pub open spec fn digits(n: nat, b: nat) -> Seq<char>
    recommends
        2 <= b <= 16,
    decreases n,
{
    if n < b || b < 2 {
        seq![digit_char(n)]
    } else {
        proof {
            assert(n / b < n) by (nonlinear_arith)
                requires
                    n >= b,
                    b >= 2,
            ;
        }
        digits(n / b, b).push(digit_char(n % b))
    }
}

/// The decimal numeral of an integer, with a leading `-` when negative.
pub open spec fn decimal(n: int) -> Seq<char> {
    if n < 0 {
        seq!['-'] + digits((-n) as nat, 10)
    } else {
        digits(n as nat, 10)
    }
}

/// The set of characters of `s` other than `0`.
pub open spec fn nonzero_chars(s: Seq<char>) -> Set<char> {
    s.to_set().remove('0')
}

/// How a number is shown in listings of the intermediate representation,
/// given the bounds `min` and `max` of its type: small numbers in decimal,
/// the bounds as `MIN` / `MAX`, numbers near a bound relative to it, and other
/// numbers in hexadecimal when that uses fewer distinct non-zero characters.
pub open spec fn num_text(num: int, min: int, max: int) -> Seq<char> {
    let a = if num < 0 { -num } else { num };
    if a <= 1050 {
        decimal(num)
    } else if num == min {
        seq!['M', 'I', 'N']
    } else if num == max {
        seq!['M', 'A', 'X']
    } else if num <= min + 256 {
        seq!['M', 'I', 'N', '+'] + digits((num - min) as nat, 10)
    } else if num >= max - 256 {
        seq!['M', 'A', 'X', '-'] + digits((max - num) as nat, 10)
    } else if nonzero_chars(digits(a as nat, 16)).len() < nonzero_chars(decimal(num)).len() {
        (if num < 0 { seq!['-'] } else { Seq::<char>::empty() }) + seq!['0', 'x'] + digits(a as nat, 16)
    } else {
        decimal(num)
    }
}

/// The digits of `n` in base `b`.
fn digit_vec(n: u128, b: u128) -> (v: Vec<char>)
    requires
        2 <= b <= 16,
    ensures
        v@ == digits(n as nat, b as nat),
{
    let mut rev: Vec<char> = Vec::new();
    let mut m = n;
    loop
        invariant_except_break
            digits(n as nat, b as nat) == digits(m as nat, b as nat) + rev@.reverse(),
        invariant
            2 <= b <= 16,
        ensures
            digits(n as nat, b as nat) == rev@.reverse(),
        decreases m,
    {
        let d = m % b;
        let c = if d < 10 { (48u8 + d as u8) as char } else { (55u8 + d as u8) as char };
        assert(c == digit_char(d as nat));
        if m < b {
            proof {
                assert(m % b == m) by (nonlinear_arith)
                    requires
                        m < b,
                ;
                assert(digits(m as nat, b as nat) == seq![c]);
                assert(rev@.push(c).reverse() == seq![c] + rev@.reverse()) by {
                    assert(rev@.push(c).reverse().drop_first() == rev@.reverse());
                }
            }
            rev.push(c);
            break;
        }
        proof {
            assert(rev@.push(c).reverse() == seq![c] + rev@.reverse()) by {
                assert(rev@.push(c).reverse().drop_first() == rev@.reverse());
            }
            assert(digits(m as nat, b as nat) == digits((m / b) as nat, b as nat).push(c));
        }
        rev.push(c);
        m = m / b;
        assert(digits(n as nat, b as nat) == digits(m as nat, b as nat) + rev@.reverse());
    }
    assert(digits(n as nat, b as nat) == rev@.reverse());
    let mut v: Vec<char> = Vec::new();
    let mut i = rev.len();
    while i > 0
        invariant
            i <= rev@.len(),
            v@ == rev@.reverse().take((rev@.len() - i) as int),
        decreases i,
    {
        i -= 1;
        v.push(rev[i]);
        assert(rev@.reverse().take((rev@.len() - i) as int)
            == rev@.reverse().take((rev@.len() - i - 1) as int).push(rev@[i as int]));
    }
    assert(rev@.reverse().take(rev@.len() as int) == rev@.reverse());
    v
}


/// Number of distinct characters other than `0` in `v`.
fn count_nonzero_distinct(v: &Vec<char>) -> (n: usize)
    ensures
        n == nonzero_chars(v@).len(),
{
    let mut seen: Vec<char> = Vec::new();
    let mut i: usize = 0;
    while i < v.len()
        invariant
            i <= v@.len(),
            seen@.no_duplicates(),
            seen@.to_set() == nonzero_chars(v@.take(i as int)),
            seen@.len() <= i,
        decreases v@.len() - i,
    {
        let c = v[i];
        let mut present = false;
        let mut j: usize = 0;
        while j < seen.len()
            invariant
                j <= seen@.len(),
                present <==> exists|k: int| 0 <= k < j && seen@[k] == c,
            decreases seen@.len() - j,
        {
            if seen[j] == c {
                present = true;
            }
            j += 1;
        }
        proof {
            assert(v@.take(i + 1) == v@.take(i as int).push(c));
            assert(v@.take(i + 1).to_set() == v@.take(i as int).to_set().insert(c)) by {
                v@.take(i as int).lemma_push_to_set_commute(c);
            }
        }
        if c != '0' && !present {
            proof {
                assert(!seen@.contains(c));
                seen@.lemma_push_to_set_commute(c);
            }
            seen.push(c);
        } else {
            proof {
                if c != '0' {
                    let k = choose|k: int| 0 <= k < seen@.len() && seen@[k] == c;
                    assert(seen@.to_set().contains(c));
                }
            }
        }
        i += 1;
    }
    proof {
        assert(v@.take(v@.len() as int) == v@);
        seen@.unique_seq_to_set();
    }
    seen.len()
}

/// Appends the characters of `v` to `s`.
pub(crate) fn push_all(s: &mut String, v: &Vec<char>)
    ensures
        final(s)@ == old(s)@ + v@,
{
    let mut i: usize = 0;
    while i < v.len()
        invariant
            i <= v@.len(),
            s@ == old(s)@ + v@.take(i as int),
        decreases v@.len() - i,
    {
        s.push(v[i]);
        assert(v@.take(i + 1) == v@.take(i as int).push(v@[i as int]));
        i += 1;
    }
    assert(v@.take(v@.len() as int) == v@);
}

/// Renders `num` as `num_text` describes, for a number type with bounds `min` and `max`.
pub fn format_num(num: i128, min: i128, max: i128) -> (s: String)
    requires
        -0x1_0000_0000_0000_0000 <= min <= num <= max <= 0x1_0000_0000_0000_0000,
    ensures
        s@ == num_text(num as int, min as int, max as int),
{
    let a: u128 = if num < 0 { (-num) as u128 } else { num as u128 };
    let mut s = String::new();
    let dec_digits = digit_vec(a, 10);
    let mut dec: Vec<char> = Vec::new();
    if num < 0 {
        dec.push('-');
    }
    let mut k: usize = 0;
    while k < dec_digits.len()
        invariant
            k <= dec_digits@.len(),
            dec@ == (if num < 0 { seq!['-'] } else { Seq::<char>::empty() }) + dec_digits@.take(k as int),
        decreases dec_digits@.len() - k,
    {
        dec.push(dec_digits[k]);
        assert(dec_digits@.take(k + 1) == dec_digits@.take(k as int).push(dec_digits@[k as int]));
        k += 1;
    }
    assert(dec_digits@.take(dec_digits@.len() as int) == dec_digits@);
    assert(dec@ == decimal(num as int));

    if a <= 1050 {
        push_all(&mut s, &dec);
        return s;
    }
    if num == min {
        s.push('M');
        s.push('I');
        s.push('N');
        return s;
    }
    if num == max {
        s.push('M');
        s.push('A');
        s.push('X');
        return s;
    }
    if num <= min + 256 {
        s.push('M');
        s.push('I');
        s.push('N');
        s.push('+');
        let d = digit_vec((num - min) as u128, 10);
        push_all(&mut s, &d);
        return s;
    }
    if num >= max - 256 {
        s.push('M');
        s.push('A');
        s.push('X');
        s.push('-');
        let d = digit_vec((max - num) as u128, 10);
        push_all(&mut s, &d);
        return s;
    }
    let hex = digit_vec(a, 16);
    if count_nonzero_distinct(&hex) < count_nonzero_distinct(&dec) {
        if num < 0 {
            s.push('-');
        }
        s.push('0');
        s.push('x');
        push_all(&mut s, &hex);
        s
    } else {
        push_all(&mut s, &dec);
        s
    }
}


/// A number shown as `num_text` describes for its type.
#[derive(Copy, Clone, Eq, PartialEq)]
pub struct NumFmt<T>(pub T);

impl NumFmt<i64> {
    pub fn to_string(&self) -> (s: String)
        ensures
            s@ == num_text(self.0 as int, i64::MIN as int, i64::MAX as int),
    {
        format_num(self.0 as i128, i64::MIN as i128, i64::MAX as i128)
    }
}

impl NumFmt<u64> {
    pub fn to_string(&self) -> (s: String)
        ensures
            s@ == num_text(self.0 as int, 0, u64::MAX as int),
    {
        format_num(self.0 as i128, 0, u64::MAX as i128)
    }
}

impl NumFmt<i8> {
    pub fn to_string(&self) -> (s: String)
        ensures
            s@ == num_text(self.0 as int, i8::MIN as int, i8::MAX as int),
    {
        format_num(self.0 as i128, i8::MIN as i128, i8::MAX as i128)
    }
}

impl NumFmt<i16> {
    pub fn to_string(&self) -> (s: String)
        ensures
            s@ == num_text(self.0 as int, i16::MIN as int, i16::MAX as int),
    {
        format_num(self.0 as i128, i16::MIN as i128, i16::MAX as i128)
    }
}

impl NumFmt<i32> {
    pub fn to_string(&self) -> (s: String)
        ensures
            s@ == num_text(self.0 as int, i32::MIN as int, i32::MAX as int),
    {
        format_num(self.0 as i128, i32::MIN as i128, i32::MAX as i128)
    }
}

impl NumFmt<u8> {
    pub fn to_string(&self) -> (s: String)
        ensures
            s@ == num_text(self.0 as int, 0, u8::MAX as int),
    {
        format_num(self.0 as i128, 0, u8::MAX as i128)
    }
}

impl NumFmt<u16> {
    pub fn to_string(&self) -> (s: String)
        ensures
            s@ == num_text(self.0 as int, 0, u16::MAX as int),
    {
        format_num(self.0 as i128, 0, u16::MAX as i128)
    }
}

impl NumFmt<u32> {
    pub fn to_string(&self) -> (s: String)
        ensures
            s@ == num_text(self.0 as int, 0, u32::MAX as int),
    {
        format_num(self.0 as i128, 0, u32::MAX as i128)
    }
}

/// How a range is shown: a bound equal to the bound of the type is left out.
pub open spec fn range_text(start: int, end: int, min: int, max: int) -> Seq<char> {
    if start == min {
        if end == max {
            seq![' ', '.', '.', '=', ' ']
        } else {
            seq![' ', '.', '.', '='] + num_text(end, min, max)
        }
    } else {
        if end == max {
            num_text(start, min, max) + seq!['.', '.', '=', ' ']
        } else {
            num_text(start, min, max) + seq!['.', '.', '='] + num_text(end, min, max)
        }
    }
}

/// A range shown as `range_text` describes for its element type.
#[derive(Clone, Eq, PartialEq)]
pub struct RangeFmt<T>(pub RangeInclusive<T>);

/// Renders the range `start..=end` of a type with bounds `min` and `max`.
fn format_range(start: i128, end: i128, min: i128, max: i128) -> (s: String)
    requires
        -0x1_0000_0000_0000_0000 <= min <= start <= max <= 0x1_0000_0000_0000_0000,
        min <= end <= max,
    ensures
        s@ == range_text(start as int, end as int, min as int, max as int),
{
    let mut s = String::new();
    if start == min {
        if end == max {
            s.push(' ');
            s.push('.');
            s.push('.');
            s.push('=');
            s.push(' ');
        } else {
            s.push(' ');
            s.push('.');
            s.push('.');
            s.push('=');
            let e = format_num(end, min, max);
            s.append(e.as_str());
        }
    } else {
        s = format_num(start, min, max);
        if end == max {
            s.push('.');
            s.push('.');
            s.push('=');
            s.push(' ');
        } else {
            s.push('.');
            s.push('.');
            s.push('=');
            let e = format_num(end, min, max);
            s.append(e.as_str());
        }
    }
    s
}

impl RangeFmt<i64> {
    pub fn to_string(&self) -> (s: String)
        ensures
            s@ == range_text(self.0@.start as int, self.0@.end as int, i64::MIN as int, i64::MAX as int),
    {
        format_range(*self.0.start() as i128, *self.0.end() as i128, i64::MIN as i128, i64::MAX as i128)
    }
}

impl RangeFmt<u64> {
    pub fn to_string(&self) -> (s: String)
        ensures
            s@ == range_text(self.0@.start as int, self.0@.end as int, 0, u64::MAX as int),
    {
        format_range(*self.0.start() as i128, *self.0.end() as i128, 0, u64::MAX as i128)
    }
}

impl RangeFmt<i8> {
    pub fn to_string(&self) -> (s: String)
        ensures
            s@ == range_text(self.0@.start as int, self.0@.end as int, i8::MIN as int, i8::MAX as int),
    {
        format_range(*self.0.start() as i128, *self.0.end() as i128, i8::MIN as i128, i8::MAX as i128)
    }
}

impl RangeFmt<i16> {
    pub fn to_string(&self) -> (s: String)
        ensures
            s@ == range_text(self.0@.start as int, self.0@.end as int, i16::MIN as int, i16::MAX as int),
    {
        format_range(*self.0.start() as i128, *self.0.end() as i128, i16::MIN as i128, i16::MAX as i128)
    }
}

impl RangeFmt<i32> {
    pub fn to_string(&self) -> (s: String)
        ensures
            s@ == range_text(self.0@.start as int, self.0@.end as int, i32::MIN as int, i32::MAX as int),
    {
        format_range(*self.0.start() as i128, *self.0.end() as i128, i32::MIN as i128, i32::MAX as i128)
    }
}

impl RangeFmt<u8> {
    pub fn to_string(&self) -> (s: String)
        ensures
            s@ == range_text(self.0@.start as int, self.0@.end as int, 0, u8::MAX as int),
    {
        format_range(*self.0.start() as i128, *self.0.end() as i128, 0, u8::MAX as i128)
    }
}

impl RangeFmt<u16> {
    pub fn to_string(&self) -> (s: String)
        ensures
            s@ == range_text(self.0@.start as int, self.0@.end as int, 0, u16::MAX as int),
    {
        format_range(*self.0.start() as i128, *self.0.end() as i128, 0, u16::MAX as i128)
    }
}

impl RangeFmt<u32> {
    pub fn to_string(&self) -> (s: String)
        ensures
            s@ == range_text(self.0@.start as int, self.0@.end as int, 0, u32::MAX as int),
    {
        format_range(*self.0.start() as i128, *self.0.end() as i128, 0, u32::MAX as i128)
    }
}

} // verus!
