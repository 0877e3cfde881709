//! Characters and decimal numerals: what counts as a digit, a sign or a
//! blank, how an integer is written in decimal and read back.

use vstd::prelude::*;
use vstd::string::*;

verus! {

pub open spec fn is_digit(c: char) -> bool {
    '0' <= c <= '9'
}

pub open spec fn is_sign(c: char) -> bool {
    c == '+' || c == '-'
}

/// White space as Unicode's `White_Space` property defines it.
pub open spec fn is_white(c: char) -> bool {
    ||| c == ' '
    ||| '\t' <= c <= '\r'
    ||| c == '\u{85}'
    ||| c == '\u{a0}'
    ||| c == '\u{1680}'
    ||| '\u{2000}' <= c <= '\u{200a}'
    ||| c == '\u{2028}'
    ||| c == '\u{2029}'
    ||| c == '\u{202f}'
    ||| c == '\u{205f}'
    ||| c == '\u{3000}'
}

/// The value of a digit character.
pub open spec fn digit_value(c: char) -> nat {
    ((c as u32) - ('0' as u32)) as nat
}

/// The character of a digit value below ten.
pub open spec fn digit_char(d: nat) -> char {
    if d == 0 {
        '0'
    } else if d == 1 {
        '1'
    } else if d == 2 {
        '2'
    } else if d == 3 {
        '3'
    } else if d == 4 {
        '4'
    } else if d == 5 {
        '5'
    } else if d == 6 {
        '6'
    } else if d == 7 {
        '7'
    } else if d == 8 {
        '8'
    } else {
        '9'
    }
}

/// One or more decimal digits.
pub open spec fn all_digits(s: Seq<char>) -> bool {
    s.len() > 0 && forall|i: int| 0 <= i < s.len() ==> is_digit(#[trigger] s[i])
}

/// Decimal digits with an optional leading `+` or `-`.
pub open spec fn signed_digits(s: Seq<char>) -> bool {
    all_digits(s) || (s.len() > 0 && is_sign(s[0]) && all_digits(s.drop_first()))
}

/// The number that a run of decimal digits denotes.
pub open spec fn digits_value(s: Seq<char>) -> nat
    decreases s.len(),
{
    if s.len() == 0 {
        0
    } else {
        digits_value(s.drop_last()) * 10 + digit_value(s.last())
    }
}

/// The number that optionally signed decimal digits denote.
pub open spec fn signed_value(s: Seq<char>) -> int {
    if s[0] == '-' {
        -digits_value(s.drop_first())
    } else if s[0] == '+' {
        digits_value(s.drop_first()) as int
    } else {
        digits_value(s) as int
    }
}

/// The decimal digits of a natural, without leading zeros.
pub open spec fn digits(n: nat) -> Seq<char>
    decreases n,
{
    if n < 10 {
        seq![digit_char(n)]
    } else {
        digits(n / 10).push(digit_char(n % 10))
    }
}

/// An integer in decimal, with a leading `-` when negative.
pub open spec fn int_str(i: int) -> Seq<char> {
    if i < 0 {
        seq!['-'] + digits((-i) as nat)
    } else {
        digits(i as nat)
    }
}

/// Fits in an `i32`.
pub open spec fn fits_i32(x: int) -> bool {
    i32::MIN <= x <= i32::MAX
}

pub proof fn lemma_digit_char(d: nat)
    requires
        d < 10,
    ensures
        is_digit(digit_char(d)),
        digit_value(digit_char(d)) == d,
{
}

/// The decimal digits of `n` are digits and read back as `n`.
pub proof fn lemma_digits(n: nat)
    ensures
        all_digits(digits(n)),
        digits_value(digits(n)) == n,
    decreases n,
{
    lemma_digit_char(n % 10);
    if n >= 10 {
        lemma_digits(n / 10);
        let s = digits(n);
        assert(s.drop_last() =~= digits(n / 10));
        assert(s.last() == digit_char(n % 10));
        assert(digits_value(s) == digits_value(digits(n / 10)) * 10 + digit_value(digit_char(n % 10)));
        assert forall|i: int| 0 <= i < s.len() implies is_digit(#[trigger] s[i]) by {
            if i < s.len() - 1 {
                assert(s[i] == digits(n / 10)[i]);
            }
        }
    } else {
        assert(digits(n).drop_last() =~= Seq::<char>::empty());
        assert(digits_value(digits(n)) == digits_value(Seq::<char>::empty()) * 10 + digit_value(digit_char(n)));
    }
}

/// An integer written by `int_str` reads back as itself.
pub proof fn lemma_int_str(i: int)
    ensures
        signed_digits(int_str(i)),
        signed_value(int_str(i)) == i,
        int_str(i).len() > 0,
{
    if i < 0 {
        lemma_digits((-i) as nat);
        assert(int_str(i).drop_first() =~= digits((-i) as nat));
    } else {
        lemma_digits(i as nat);
        assert(is_digit(digits(i as nat)[0]));
    }
}

pub fn is_digit_char(c: char) -> (r: bool)
    ensures
        r == is_digit(c),
{
    '0' <= c && c <= '9'
}

pub fn is_white_char(c: char) -> (r: bool)
    ensures
        r == is_white(c),
{
    c == ' ' || ('\t' <= c && c <= '\r') || c == '\u{85}' || c == '\u{a0}' || c == '\u{1680}'
        || ('\u{2000}' <= c && c <= '\u{200a}') || c == '\u{2028}' || c == '\u{2029}'
        || c == '\u{202f}' || c == '\u{205f}' || c == '\u{3000}'
}

/// The characters of a string slice.
pub fn chars_of(s: &str) -> (r: Vec<char>)
    ensures
        r@ == s@,
{
    let n = s.unicode_len();
    let mut v: Vec<char> = Vec::new();
    let mut i: usize = 0;
    while i < n
        invariant
            n == s@.len(),
            i <= n,
            v@ == s@.subrange(0, i as int),
        decreases n - i,
    {
        v.push(s.get_char(i));
        i += 1;
        assert(v@ =~= s@.subrange(0, i as int));
    }
    assert(s@.subrange(0, n as int) =~= s@);
    v
}

/// The string of one digit.
fn digit_str(d: u32) -> (r: &'static str)
    requires
        d < 10,
    ensures
        r@ == seq![digit_char(d as nat)],
{
    proof {
        reveal_strlit("0");
        reveal_strlit("1");
        reveal_strlit("2");
        reveal_strlit("3");
        reveal_strlit("4");
        reveal_strlit("5");
        reveal_strlit("6");
        reveal_strlit("7");
        reveal_strlit("8");
        reveal_strlit("9");
    }
    let r = if d == 0 {
        "0"
    } else if d == 1 {
        "1"
    } else if d == 2 {
        "2"
    } else if d == 3 {
        "3"
    } else if d == 4 {
        "4"
    } else if d == 5 {
        "5"
    } else if d == 6 {
        "6"
    } else if d == 7 {
        "7"
    } else if d == 8 {
        "8"
    } else {
        "9"
    };
    assert(r@ =~= seq![digit_char(d as nat)]);
    r
}

/// Appends the decimal digits of `n`.
pub fn append_digits(s: &mut String, n: u32)
    ensures
        final(s)@ == old(s)@ + digits(n as nat),
    decreases n,
{
    if n >= 10 {
        append_digits(s, n / 10);
    }
    s.append(digit_str(n % 10));
    assert(final(s)@ =~= old(s)@ + digits(n as nat));
}

/// Appends an integer in decimal.
pub fn append_int(s: &mut String, i: i32)
    requires
        i > i32::MIN,
    ensures
        final(s)@ == old(s)@ + int_str(i as int),
{
    if i < 0 {
        s.append("-");
        proof {
            reveal_strlit("-");
        }
        append_digits(s, (-i) as u32);
    } else {
        append_digits(s, i as u32);
    }
    assert(final(s)@ =~= old(s)@ + int_str(i as int));
}

/// No position of `t` holds `c` when `t` is optionally signed digits and `c`
/// is neither a digit nor a sign.
pub proof fn lemma_signed_digits_lack(t: Seq<char>, c: char)
    requires
        signed_digits(t),
        !is_digit(c),
        !is_sign(c),
    ensures
        forall|i: int| 0 <= i < t.len() ==> t[i] != c,
{
    assert forall|i: int| 0 <= i < t.len() implies t[i] != c by {
        if !all_digits(t) && i > 0 {
            assert(t[i] == t.drop_first()[i - 1]);
        }
    }
}

/// Digits alone read the same signed or not.
pub proof fn lemma_unsigned_value(t: Seq<char>)
    requires
        all_digits(t),
    ensures
        signed_digits(t),
        signed_value(t) == digits_value(t) as int,
{
    assert(is_digit(t[0]));
}

/// Reading one more digit never lowers the value.
proof fn lemma_digits_value_step(s: Seq<char>, lo: int, i: int)
    requires
        0 <= lo <= i < s.len(),
    ensures
        digits_value(s.subrange(lo, i + 1)) == digits_value(s.subrange(lo, i)) * 10 + digit_value(
            s[i],
        ),
{
    assert(s.subrange(lo, i + 1).drop_last() =~= s.subrange(lo, i));
}

/// The first position at or after `lo` that holds `c`, or the length.
pub fn find_char(v: &Vec<char>, lo: usize, c: char) -> (r: usize)
    requires
        lo <= v.len(),
    ensures
        lo <= r <= v.len(),
        forall|i: int| lo <= i < r ==> v@[i] != c,
        r < v.len() ==> v@[r as int] == c,
{
    let mut i = lo;
    while i < v.len() && v[i] != c
        invariant
            lo <= i <= v.len(),
            forall|j: int| lo <= j < i ==> v@[j] != c,
        decreases v.len() - i,
    {
        i += 1;
    }
    i
}

/// Whether `v[lo..hi]` is one or more digits.
pub fn check_digits(v: &Vec<char>, lo: usize, hi: usize) -> (r: bool)
    requires
        lo <= hi <= v.len(),
    ensures
        r == all_digits(v@.subrange(lo as int, hi as int)),
{
    let ghost t = v@.subrange(lo as int, hi as int);
    if lo == hi {
        return false;
    }
    let mut i = lo;
    while i < hi
        invariant
            lo <= i <= hi <= v.len(),
            t == v@.subrange(lo as int, hi as int),
            forall|j: int| lo <= j < i ==> is_digit(v@[j]),
        decreases hi - i,
    {
        if !is_digit_char(v[i]) {
            assert(!is_digit(t[i - lo]));
            return false;
        }
        i += 1;
    }
    assert forall|j: int| 0 <= j < t.len() implies is_digit(#[trigger] t[j]) by {
        assert(t[j] == v@[lo + j]);
    }
    true
}

/// Whether `v[lo..hi]` is digits with an optional leading sign.
pub fn check_signed(v: &Vec<char>, lo: usize, hi: usize) -> (r: bool)
    requires
        lo <= hi <= v.len(),
    ensures
        r == signed_digits(v@.subrange(lo as int, hi as int)),
{
    let ghost t = v@.subrange(lo as int, hi as int);
    if lo < hi && (v[lo] == '+' || v[lo] == '-') {
        assert(t.drop_first() =~= v@.subrange(lo + 1, hi as int));
        assert(!is_digit(t[0]));
        check_digits(v, lo + 1, hi)
    } else {
        check_digits(v, lo, hi)
    }
}

/// The integer that `v[lo..hi]` denotes, when it fits in an `i32`.
pub fn parse_int(v: &Vec<char>, lo: usize, hi: usize) -> (r: Option<i32>)
    requires
        lo <= hi <= v.len(),
        signed_digits(v@.subrange(lo as int, hi as int)),
    ensures
        r == (if fits_i32(signed_value(v@.subrange(lo as int, hi as int))) {
            Some(signed_value(v@.subrange(lo as int, hi as int)) as i32)
        } else {
            None
        }),
{
    let ghost t = v@.subrange(lo as int, hi as int);
    let negative = v[lo] == '-';
    let start = if v[lo] == '-' || v[lo] == '+' {
        lo + 1
    } else {
        lo
    };
    proof {
        if start == lo + 1 {
            assert(t.drop_first() =~= v@.subrange(start as int, hi as int));
            assert(!is_digit(t[0]));
        } else {
            assert(t =~= v@.subrange(start as int, hi as int));
        }
        let u = v@.subrange(start as int, hi as int);
        assert forall|j: int| start <= j < hi implies is_digit(v@[j]) by {
            assert(v@[j] == u[j - start]);
        }
    }
    let mut acc: u64 = 0;
    let mut big = false;
    let mut i = start;
    while i < hi
        invariant
            start <= i <= hi <= v.len(),
            forall|j: int| start <= j < hi ==> is_digit(v@[j]),
            !big ==> acc == digits_value(v@.subrange(start as int, i as int)) && acc
                <= 0x8000_0000,
            big ==> digits_value(v@.subrange(start as int, i as int)) > 0x8000_0000,
        decreases hi - i,
    {
        proof {
            lemma_digits_value_step(v@, start as int, i as int);
        }
        let digit = (v[i] as u32 - '0' as u32) as u64;
        if !big {
            let next = acc * 10 + digit;
            if next > 0x8000_0000 {
                big = true;
            } else {
                acc = next;
            }
        }
        i += 1;
    }
    if big {
        return None;
    }
    if negative {
        Some(-(acc as i64) as i32)
    } else if acc <= i32::MAX as u64 {
        Some(acc as i32)
    } else {
        None
    }
}

} // verus!
