//! Positional numerals over a decimal or hexadecimal digit alphabet:
//! the canonical text of a number, the value of a digit string, and
//! the scanning specifications (maximal digit run, first occurrence of
//! a character) that the address and mask parsers are stated over.

use vstd::prelude::*;

verus! {

/// The digit character for a value below 16; lowercase for the
/// hexadecimal letters.
pub open spec fn digit_char(d: nat) -> char {
    if d == 0 {
        '0'
    } else if d == 1 {
        '1'
    } else if d == 2 {
        '2'
    } else if d == 3 {
        '3'
    } else if d == 4 {
        '4'
    } else if d == 5 {
        '5'
    } else if d == 6 {
        '6'
    } else if d == 7 {
        '7'
    } else if d == 8 {
        '8'
    } else if d == 9 {
        '9'
    } else if d == 10 {
        'a'
    } else if d == 11 {
        'b'
    } else if d == 12 {
        'c'
    } else if d == 13 {
        'd'
    } else if d == 14 {
        'e'
    } else {
        'f'
    }
}

/// The value of a digit character; 0 on anything else.
pub open spec fn digit_val(c: char) -> nat {
    if c == '0' {
        0
    } else if c == '1' {
        1
    } else if c == '2' {
        2
    } else if c == '3' {
        3
    } else if c == '4' {
        4
    } else if c == '5' {
        5
    } else if c == '6' {
        6
    } else if c == '7' {
        7
    } else if c == '8' {
        8
    } else if c == '9' {
        9
    } else if c == 'a' {
        10
    } else if c == 'b' {
        11
    } else if c == 'c' {
        12
    } else if c == 'd' {
        13
    } else if c == 'e' {
        14
    } else if c == 'f' {
        15
    } else {
        0
    }
}

/// Whether `c` is a digit of the given base (10 or 16); hexadecimal
/// letters count only in lowercase.
pub open spec fn is_digit_b(c: char, base: nat) -> bool {
    (c == '0' || c == '1' || c == '2' || c == '3' || c == '4' || c == '5' || c == '6' || c == '7'
        || c == '8' || c == '9') || (base == 16 && (c == 'a' || c == 'b' || c == 'c' || c == 'd'
        || c == 'e' || c == 'f'))
}

/// The canonical text of `n` in the given base: most significant digit
/// first, no leading zeros, lowercase.
pub open spec fn digits_of(n: nat, base: nat) -> Seq<char>
    decreases n,
    when base >= 2
    via digits_of_decreases
{
    if n < base {
        seq![digit_char(n)]
    } else {
        digits_of(n / base, base).push(digit_char(n % base))
    }
}

#[via_fn]
proof fn digits_of_decreases(n: nat, base: nat) {
    if n >= base {
        vstd::arithmetic::div_mod::lemma_div_is_strictly_smaller(n as int, base as int);
    }
}

/// The value of a digit string read in the given base.
pub open spec fn value_of(s: Seq<char>, base: nat) -> nat
    decreases s.len(),
{
    if s.len() == 0 {
        0
    } else {
        value_of(s.drop_last(), base) * base + digit_val(s.last())
    }
}

/// Whether every character of `s` is a digit of the base.
pub open spec fn all_digits(s: Seq<char>, base: nat) -> bool {
    forall|i: int| 0 <= i < s.len() ==> is_digit_b(s[i], base)
}

/// The end of the maximal digit run of `s` that starts at `i`.
pub open spec fn run_end(s: Seq<char>, i: int, base: nat) -> int
    decreases s.len() - i,
    when 0 <= i <= s.len()
{
    if i < s.len() && is_digit_b(s[i], base) {
        run_end(s, i + 1, base)
    } else {
        i
    }
}

/// The first position at or after `i` where `c` occurs in `s`, or
/// `s.len()` when it does not occur.
pub open spec fn find_at(s: Seq<char>, i: int, c: char) -> int
    decreases s.len() - i,
    when 0 <= i <= s.len()
{
    if i < s.len() && s[i] != c {
        find_at(s, i + 1, c)
    } else {
        i
    }
}

/// A digit's value is below its base, and the digit maps back to its
/// character.
pub proof fn lemma_digit_char_val(c: char, base: nat)
    requires
        base == 10 || base == 16,
        is_digit_b(c, base),
    ensures
        digit_val(c) < base,
        digit_char(digit_val(c)) == c,
{
}

/// A value below the base maps to a digit of the base, and back to
/// itself.
pub proof fn lemma_digit_val_char(d: nat, base: nat)
    requires
        base == 10 || base == 16,
        d < base,
    ensures
        is_digit_b(digit_char(d), base),
        digit_val(digit_char(d)) == d,
{
}

/// The canonical text of a number is a nonempty digit string without a
/// leading zero (except for 0 itself), and its value is the number.
pub proof fn lemma_digits_of_props(n: nat, base: nat)
    requires
        base == 10 || base == 16,
    ensures
        digits_of(n, base).len() >= 1,
        all_digits(digits_of(n, base), base),
        value_of(digits_of(n, base), base) == n,
        n == 0 ==> digits_of(n, base) == seq!['0'],
        n > 0 ==> digits_of(n, base)[0] != '0',
    decreases n,
{
    if n < base {
        lemma_digit_val_char(n, base);
        let s = digits_of(n, base);
        assert(s == seq![digit_char(n)]);
        assert(s.drop_last() =~= Seq::<char>::empty());
        assert(value_of(Seq::<char>::empty(), base) == 0);
        assert(value_of(s, base) == value_of(s.drop_last(), base) * base + digit_val(s.last()));
        if n > 0 {
            assert(digit_char(n) != '0');
        }
    } else {
        let q = n / base;
        let r = n % base;
        assert(base * q + r == n && 0 <= r < base) by {
            vstd::arithmetic::div_mod::lemma_fundamental_div_mod(n as int, base as int);
        }
        assert(q >= 1) by (nonlinear_arith)
            requires
                base * q + r == n,
                0 <= r < base,
                n >= base,
                base >= 2,
        ;
        assert(q < n) by (nonlinear_arith)
            requires
                base * q + r == n,
                0 <= r,
                q >= 1,
                base >= 2,
        ;
        lemma_digits_of_props(q, base);
        lemma_digit_val_char(r, base);
        let s = digits_of(n, base);
        let sq = digits_of(q, base);
        assert(s == sq.push(digit_char(r)));
        assert(s.drop_last() == sq);
        assert(s.last() == digit_char(r));
        assert(value_of(s, base) == q * base + r);
        assert(q * base + r == n) by (nonlinear_arith)
            requires
                base * q + r == n,
        ;
        assert(all_digits(s, base)) by {
            assert(forall|i: int|
                0 <= i < s.len() ==> s[i] == (if i < sq.len() {
                    sq[i]
                } else {
                    digit_char(r)
                }));
        }
        assert(s[0] == sq[0]);
        assert(sq[0] != '0');
    }
}

/// The canonical text of a number below base^k has at most k digits.
pub proof fn lemma_digits_of_len(n: nat, base: nat, k: nat)
    requires
        base == 10 || base == 16,
        k >= 1,
        n < vstd::arithmetic::power::pow(base as int, k),
    ensures
        digits_of(n, base).len() <= k,
    decreases n,
{
    if n < base {
    } else {
        let q = n / base;
        let r = n % base;
        assert(base * q + r == n && 0 <= r < base) by {
            vstd::arithmetic::div_mod::lemma_fundamental_div_mod(n as int, base as int);
        }
        assert(q >= 1 && q < n) by (nonlinear_arith)
            requires
                base * q + r == n,
                0 <= r < base,
                n >= base,
                base >= 2,
        ;
        let p = vstd::arithmetic::power::pow(base as int, (k - 1) as nat);
        assert(vstd::arithmetic::power::pow(base as int, k) == base * p) by {
            vstd::arithmetic::power::lemma_pow1(base as int);
            vstd::arithmetic::power::lemma_pow_adds(base as int, 1, (k - 1) as nat);
        }
        assert(k >= 2) by {
            vstd::arithmetic::power::lemma_pow1(base as int);
            if k == 1 {
                assert(n < base);
            }
        }
        assert(q < p) by (nonlinear_arith)
            requires
                base * q + r == n,
                0 <= r,
                n < base * p,
                base >= 2,
        ;
        lemma_digits_of_len(q, base, (k - 1) as nat);
        assert(digits_of(n, base) == digits_of(q, base).push(digit_char(n % base)));
    }
}

/// A nonempty digit string with no leading zero has a positive value.
pub proof fn lemma_no_leading_zero_positive(s: Seq<char>, base: nat)
    requires
        base == 10 || base == 16,
        all_digits(s, base),
        s.len() >= 1,
        s[0] != '0',
    ensures
        value_of(s, base) >= 1,
    decreases s.len(),
{
    if s.len() == 1 {
        lemma_digit_char_val(s[0], base);
        assert(s.drop_last() =~= Seq::<char>::empty());
        assert(value_of(Seq::<char>::empty(), base) == 0);
        assert(value_of(s, base) == value_of(s.drop_last(), base) * base + digit_val(s.last()));
        assert(digit_val(s[0]) >= 1);
    } else {
        let t = s.drop_last();
        assert(all_digits(t, base));
        assert(t[0] == s[0]);
        lemma_no_leading_zero_positive(t, base);
        assert(value_of(t, base) * base >= base) by (nonlinear_arith)
            requires
                value_of(t, base) >= 1,
                base >= 2,
        ;
    }
}

/// A nonempty digit string in canonical form (no leading zero unless
/// it is "0") is the canonical text of its own value.
pub proof fn lemma_canonical_digits(s: Seq<char>, base: nat)
    requires
        base == 10 || base == 16,
        all_digits(s, base),
        s.len() >= 1,
        s.len() > 1 ==> s[0] != '0',
    ensures
        digits_of(value_of(s, base), base) == s,
    decreases s.len(),
{
    let n = value_of(s, base);
    if s.len() == 1 {
        lemma_digit_char_val(s[0], base);
        assert(s.drop_last() =~= Seq::<char>::empty());
        assert(value_of(Seq::<char>::empty(), base) == 0);
        assert(value_of(s, base) == value_of(s.drop_last(), base) * base + digit_val(s.last()));
        assert(n == digit_val(s[0]));
        assert(digits_of(n, base) == seq![digit_char(n)]);
        assert(seq![digit_char(n)] =~= s);
    } else {
        let t = s.drop_last();
        let d = digit_val(s.last());
        assert(all_digits(t, base));
        assert(t[0] == s[0]);
        lemma_no_leading_zero_positive(t, base);
        lemma_digit_char_val(s.last(), base);
        let m = value_of(t, base);
        assert(n == m * base + d);
        assert(n >= base && n / base == m && n % base == d) by (nonlinear_arith)
            requires
                n == m * base + d,
                m >= 1,
                0 <= d < base,
                base >= 2,
        ;
        lemma_canonical_digits(t, base);
        assert(digits_of(n, base) == digits_of(m, base).push(digit_char(d)));
        assert(digit_char(d) == s.last());
        assert(t.push(s.last()) =~= s);
    }
}

/// Characterizes `run_end`: up to it everything is a digit, and it is
/// the position of the first non-digit (or the end of the string).
pub proof fn lemma_run_end_props(s: Seq<char>, i: int, base: nat)
    requires
        0 <= i <= s.len(),
    ensures
        i <= run_end(s, i, base) <= s.len(),
        forall|k: int| i <= k < run_end(s, i, base) ==> is_digit_b(s[k], base),
        run_end(s, i, base) < s.len() ==> !is_digit_b(s[run_end(s, i, base)], base),
    decreases s.len() - i,
{
    if i < s.len() && is_digit_b(s[i], base) {
        lemma_run_end_props(s, i + 1, base);
    }
}

/// Any position that bounds a digit run and stops at a non-digit (or
/// at the end) is `run_end`.
pub proof fn lemma_run_end_is(s: Seq<char>, i: int, e: int, base: nat)
    requires
        0 <= i <= e <= s.len(),
        forall|k: int| i <= k < e ==> is_digit_b(s[k], base),
        e < s.len() ==> !is_digit_b(s[e], base),
    ensures
        run_end(s, i, base) == e,
    decreases s.len() - i,
{
    if i < s.len() && is_digit_b(s[i], base) {
        assert(i < e);
        lemma_run_end_is(s, i + 1, e, base);
    }
}

/// Any position with no occurrence of `c` before it that holds `c`
/// (or is the end) is `find_at`.
pub proof fn lemma_find_at_is(s: Seq<char>, i: int, e: int, c: char)
    requires
        0 <= i <= e <= s.len(),
        forall|k: int| i <= k < e ==> s[k] != c,
        e < s.len() ==> s[e] == c,
    ensures
        find_at(s, i, c) == e,
    decreases s.len() - i,
{
    if i < s.len() && s[i] != c {
        assert(i < e);
        lemma_find_at_is(s, i + 1, e, c);
    }
}

/// Whether `c` is a hexadecimal digit of either case.
pub open spec fn is_hex_digit(c: char) -> bool {
    is_digit_b(c, 16) || c == 'A' || c == 'B' || c == 'C' || c == 'D' || c == 'E' || c == 'F'
}

/// The value of a hexadecimal digit of either case; 0 on anything
/// else.
pub open spec fn hex_digit_val(c: char) -> nat {
    if c == 'A' {
        10
    } else if c == 'B' {
        11
    } else if c == 'C' {
        12
    } else if c == 'D' {
        13
    } else if c == 'E' {
        14
    } else if c == 'F' {
        15
    } else {
        digit_val(c)
    }
}

/// The value of a hexadecimal digit string of either case.
pub open spec fn hex_val(s: Seq<char>) -> nat
    decreases s.len(),
{
    if s.len() == 0 {
        0
    } else {
        hex_val(s.drop_last()) * 16 + hex_digit_val(s.last())
    }
}

/// The end of the maximal either-case hexadecimal digit run of `s`
/// that starts at `i`.
pub open spec fn hex_run_end(s: Seq<char>, i: int) -> int
    decreases s.len() - i,
    when 0 <= i <= s.len()
{
    if i < s.len() && is_hex_digit(s[i]) {
        hex_run_end(s, i + 1)
    } else {
        i
    }
}

/// Any position that bounds a hexadecimal run and stops at a
/// non-digit (or at the end) is `hex_run_end`.
pub proof fn lemma_hex_run_end_is(s: Seq<char>, i: int, e: int)
    requires
        0 <= i <= e <= s.len(),
        forall|k: int| i <= k < e ==> is_hex_digit(s[k]),
        e < s.len() ==> !is_hex_digit(s[e]),
    ensures
        hex_run_end(s, i) == e,
    decreases s.len() - i,
{
    if i < s.len() && is_hex_digit(s[i]) {
        assert(i < e);
        lemma_hex_run_end_is(s, i + 1, e);
    }
}

/// Converts one character to its hexadecimal digit value, of either
/// case, if it is one.
pub fn hex_digit_of_char(c: char) -> (r: Option<u16>)
    ensures
        match r {
            Some(d) => is_hex_digit(c) && d as nat == hex_digit_val(c) && d < 16,
            None => !is_hex_digit(c),
        },
{
    match c {
        '0' => Some(0),
        '1' => Some(1),
        '2' => Some(2),
        '3' => Some(3),
        '4' => Some(4),
        '5' => Some(5),
        '6' => Some(6),
        '7' => Some(7),
        '8' => Some(8),
        '9' => Some(9),
        'a' | 'A' => Some(10),
        'b' | 'B' => Some(11),
        'c' | 'C' => Some(12),
        'd' | 'D' => Some(13),
        'e' | 'E' => Some(14),
        'f' | 'F' => Some(15),
        _ => None,
    }
}

/// Converts one character to its digit value in the given base, if it
/// is a digit of that base.
pub fn digit_of_char(c: char, base: u16) -> (r: Option<u16>)
    requires
        base == 10 || base == 16,
    ensures
        match r {
            Some(d) => is_digit_b(c, base as nat) && d as nat == digit_val(c) && d < base,
            None => !is_digit_b(c, base as nat),
        },
{
    match c {
        '0' => Some(0),
        '1' => Some(1),
        '2' => Some(2),
        '3' => Some(3),
        '4' => Some(4),
        '5' => Some(5),
        '6' => Some(6),
        '7' => Some(7),
        '8' => Some(8),
        '9' => Some(9),
        'a' => if base == 16 { Some(10) } else { None },
        'b' => if base == 16 { Some(11) } else { None },
        'c' => if base == 16 { Some(12) } else { None },
        'd' => if base == 16 { Some(13) } else { None },
        'e' => if base == 16 { Some(14) } else { None },
        'f' => if base == 16 { Some(15) } else { None },
        _ => None,
    }
}

/// The one-character string for a digit value below 16.
pub fn digit_text(d: u16) -> (r: &'static str)
    requires
        d < 16,
    ensures
        r@ == seq![digit_char(d as nat)],
{
    proof {
        reveal_strlit("0");
        reveal_strlit("1");
        reveal_strlit("2");
        reveal_strlit("3");
        reveal_strlit("4");
        reveal_strlit("5");
        reveal_strlit("6");
        reveal_strlit("7");
        reveal_strlit("8");
        reveal_strlit("9");
        reveal_strlit("a");
        reveal_strlit("b");
        reveal_strlit("c");
        reveal_strlit("d");
        reveal_strlit("e");
        reveal_strlit("f");
    }
    match d {
        0 => "0",
        1 => "1",
        2 => "2",
        3 => "3",
        4 => "4",
        5 => "5",
        6 => "6",
        7 => "7",
        8 => "8",
        9 => "9",
        10 => "a",
        11 => "b",
        12 => "c",
        13 => "d",
        14 => "e",
        _ => "f",
    }
}

/// Renders `n` in the given base as its canonical text.
pub fn nat_to_text(n: u64, base: u16) -> (r: String)
    requires
        base == 10 || base == 16,
    ensures
        r@ == digits_of(n as nat, base as nat),
    decreases n,
{
    if n < base as u64 {
        let mut s = String::new();
        s.append(digit_text(n as u16));
        proof {
            assert(s@ =~= seq![digit_char(n as nat)]);
        }
        s
    } else {
        let q = n / base as u64;
        let r = n % base as u64;
        proof {
            assert(q < n && r < 16) by (nonlinear_arith)
                requires
                    q == n / base as u64,
                    r == n % base as u64,
                    n >= base,
                    base == 10 || base == 16,
            ;
        }
        let mut s = nat_to_text(q, base);
        s.append(digit_text(r as u16));
        proof {
            assert((n as nat) / (base as nat) == q as nat && (n as nat) % (base as nat)
                == r as nat);
            assert(s@ =~= digits_of(n as nat, base as nat));
        }
        s
    }
}

} // verus!
