//! Text for numbers, and the decimal reader.

use vstd::prelude::*;
use crate::word::{wrap, wrap16};

verus! {

/// The character for a digit value below 16: `0`-`9`, then `A`-`F`.
pub open spec fn digit_char(v: int) -> u8 {
    if v < 10 {
        (48 + v) as u8
    } else {
        (55 + v) as u8
    }
}

/// The value of a width character, read in base 36: `0`-`9` give 0 to 9,
/// `A`-`Z` give 10 to 35, anything else gives 0.
pub open spec fn decval_spec(c: int) -> int {
    if 48 <= c <= 57 {
        c - 48
    } else if 65 <= c <= 90 {
        c - 55
    } else {
        0
    }
}

/// `u` in hexadecimal, in `max(1, d)` digits: the low digits of `u`, with
/// leading zeros.
pub open spec fn hex_text(u: nat, d: int) -> Seq<u8>
    decreases d,
{
    if d > 1 {
        hex_text(u / 16, d - 1).push(digit_char((u % 16) as int))
    } else {
        seq![digit_char((u % 16) as int)]
    }
}

/// `u` in octal, in `max(1, d)` digits: the low digits of `u`, with leading zeros.
pub open spec fn oct_text(u: nat, d: int) -> Seq<u8>
    decreases d,
{
    if d > 1 {
        oct_text(u / 8, d - 1).push(digit_char((u % 8) as int))
    } else {
        seq![digit_char((u % 8) as int)]
    }
}

/// The decimal digits of `n`, without leading zeros.
pub open spec fn dec_digits(n: nat) -> Seq<u8>
    decreases n,
{
    if n < 10 {
        seq![(48 + n) as u8]
    } else {
        dec_digits(n / 10).push((48 + n % 10) as u8)
    }
}

/// `n` in decimal, with a minus sign where it is negative.
pub open spec fn dec_text(n: int) -> Seq<u8> {
    if n < 0 {
        seq![45u8] + dec_digits((-n) as nat)
    } else {
        dec_digits(n as nat)
    }
}

/// `k` spaces.
pub open spec fn spaces(k: int) -> Seq<u8> {
    Seq::new(
        if k > 0 {
            k as nat
        } else {
            0
        },
        |i: int| 32u8,
    )
}

/// `n` in decimal, with spaces before it up to width `d`; a width that the
/// text already fills, zero or negative, adds nothing.
pub open spec fn writed_spec(n: int, d: int) -> Seq<u8> {
    spaces(d - dec_text(n).len()) + dec_text(n)
}

/// `n` in decimal.
pub open spec fn writen_spec(n: int) -> Seq<u8> {
    writed_spec(n, 0)
}

/// The value of a width character in base 36.
pub fn decval(c: u8) -> (r: i16)
    ensures
        r == decval_spec(c as int),
        0 <= r <= 35,
{
    if c >= 48 && c <= 57 {
        (c - 48) as i16
    } else if c >= 65 && c <= 90 {
        (c - 55) as i16
    } else {
        0
    }
}

fn digit_of(v: u8) -> (r: u8)
    requires
        v < 16,
    ensures
        r == digit_char(v as int),
{
    if v < 10 {
        48 + v
    } else {
        55 + v
    }
}

/// `k` zero digits.
spec fn zeros(k: int) -> Seq<u8> {
    Seq::new(
        if k > 0 {
            k as nat
        } else {
            0
        },
        |i: int| 48u8,
    )
}

proof fn lemma_hex_zero(d: int)
    requires
        d >= 1,
    ensures
        hex_text(0, d) =~= zeros(d),
    decreases d,
{
    if d > 1 {
        lemma_hex_zero(d - 1);
    }
}

proof fn lemma_oct_zero(d: int)
    requires
        d >= 1,
    ensures
        oct_text(0, d) =~= zeros(d),
    decreases d,
{
    if d > 1 {
        lemma_oct_zero(d - 1);
    }
}

/// Past four digits a word has only leading zeros in hexadecimal.
proof fn lemma_hex_wide(u: nat, d: int)
    requires
        d > 4,
        u < 0x10000,
    ensures
        hex_text(u, d) =~= zeros(d - 4) + hex_text(u, 4),
{
    reveal_with_fuel(hex_text, 5);
    lemma_hex_zero(d - 4);
    assert(u / 16 / 16 / 16 / 16 == 0);
}

/// Past six digits a word has only leading zeros in octal.
proof fn lemma_oct_wide(u: nat, d: int)
    requires
        d > 6,
        u < 0x10000,
    ensures
        oct_text(u, d) =~= zeros(d - 6) + oct_text(u, 6),
{
    reveal_with_fuel(oct_text, 7);
    lemma_oct_zero(d - 6);
    assert(u / 8 / 8 / 8 / 8 / 8 / 8 == 0);
}

fn push_zeros(out: &mut Vec<u8>, k: i16)
    ensures
        final(out)@ == old(out)@ + zeros(k as int),
{
    let mut i: i16 = 0;
    while i < k
        invariant
            0 <= i,
            i <= k || i == 0,
            out@ =~= old(out)@ + zeros(i as int),
        decreases k - i,
    {
        out.push(48);
        i += 1;
    }
    assert(out@ =~= old(out)@ + zeros(k as int));
}

fn hex_digits(out: &mut Vec<u8>, n: u16, d: i16)
    requires
        d <= 4,
    ensures
        final(out)@ == old(out)@ + hex_text(n as nat, d as int),
    decreases d,
{
    if d > 1 {
        hex_digits(out, n / 16, d - 1);
    }
    out.push(digit_of((n % 16) as u8));
    assert(out@ =~= old(out)@ + hex_text(n as nat, d as int));
}

fn oct_digits(out: &mut Vec<u8>, n: u16, d: i16)
    requires
        d <= 6,
    ensures
        final(out)@ == old(out)@ + oct_text(n as nat, d as int),
    decreases d,
{
    if d > 1 {
        oct_digits(out, n / 8, d - 1);
    }
    out.push(digit_of((n % 8) as u8));
    assert(out@ =~= old(out)@ + oct_text(n as nat, d as int));
}

/// Appends `n` in hexadecimal, in `max(1, d)` digits.
pub fn writehex(out: &mut Vec<u8>, n: u16, d: i16)
    ensures
        final(out)@ == old(out)@ + hex_text(n as nat, d as int),
{
    if d > 4 {
        push_zeros(out, d - 4);
        hex_digits(out, n, 4);
        proof {
            lemma_hex_wide(n as nat, d as int);
        }
        assert(out@ =~= old(out)@ + hex_text(n as nat, d as int));
    } else {
        hex_digits(out, n, d);
    }
}

/// Appends `n` in octal, in `max(1, d)` digits.
pub fn writeoct(out: &mut Vec<u8>, n: u16, d: i16)
    ensures
        final(out)@ == old(out)@ + oct_text(n as nat, d as int),
{
    if d > 6 {
        push_zeros(out, d - 6);
        oct_digits(out, n, 6);
        proof {
            lemma_oct_wide(n as nat, d as int);
        }
        assert(out@ =~= old(out)@ + oct_text(n as nat, d as int));
    } else {
        oct_digits(out, n, d);
    }
}

fn push_dec(out: &mut Vec<u8>, n: u32)
    ensures
        final(out)@ == old(out)@ + dec_digits(n as nat),
    decreases n,
{
    if n >= 10 {
        push_dec(out, n / 10);
    }
    out.push(48 + (n % 10) as u8);
    assert(out@ =~= old(out)@ + dec_digits(n as nat));
}

/// Appends `n` in decimal, with spaces before it up to width `d`.
pub fn writed(out: &mut Vec<u8>, n: i16, d: i16)
    ensures
        final(out)@ == old(out)@ + writed_spec(n as int, d as int),
{
    let mut text: Vec<u8> = Vec::new();
    if n < 0 {
        text.push(45);
        push_dec(&mut text, (-(n as i32)) as u32);
    } else {
        push_dec(&mut text, n as u32);
    }
    assert(text@ =~= dec_text(n as int));
    let width: usize = if d > 0 {
        d as usize
    } else {
        0
    };
    let mut k: usize = text.len();
    while k < width
        invariant
            text.len() <= k,
            k <= width || k == text.len(),
            width == (if d > 0 { d as int } else { 0 }),
            out@ =~= old(out)@ + spaces(k - text.len()),
        decreases width - k,
    {
        out.push(32);
        k += 1;
    }
    assert(out@ =~= old(out)@ + spaces(d - text.len()));
    out.append(&mut text);
    assert(out@ =~= old(out)@ + writed_spec(n as int, d as int));
}

/// Appends `n` in decimal.
pub fn writen(out: &mut Vec<u8>, n: i16)
    ensures
        final(out)@ == old(out)@ + writen_spec(n as int),
{
    writed(out, n, 0);
}

/// `16` to the power `d`.
pub open spec fn pow16(d: nat) -> nat
    decreases d,
{
    if d == 0 {
        1
    } else {
        16 * pow16((d - 1) as nat)
    }
}

/// `c` is a hexadecimal digit, in upper case.
pub open spec fn is_hex_char(c: u8) -> bool {
    48 <= c <= 57 || 65 <= c <= 70
}

/// The number that a text of hexadecimal digits stands for.
pub open spec fn hex_value(s: Seq<u8>) -> nat
    decreases s.len(),
{
    if s.len() == 0 {
        0
    } else {
        16 * hex_value(s.drop_last()) + (if s.last() <= 57 {
            s.last() - 48
        } else {
            s.last() - 55
        }) as nat
    }
}

/// Hexadecimal output has exactly `d` digits, and where `u` fits in `d`
/// digits, reading them back gives `u`.
pub proof fn lemma_writehex_roundtrip(u: nat, d: int)
    requires
        d >= 1,
    ensures
        hex_text(u, d).len() == d,
        forall|i: int| 0 <= i < d ==> is_hex_char(#[trigger] hex_text(u, d)[i]),
        u < pow16(d as nat) ==> hex_value(hex_text(u, d)) == u,
    decreases d,
{
    let t = hex_text(u, d);
    let low = digit_char((u % 16) as int);
    assert(t.last() == low);
    assert((if low <= 57 { low - 48 } else { low - 55 }) == u % 16);
    if d > 1 {
        lemma_writehex_roundtrip(u / 16, d - 1);
        let head = hex_text(u / 16, d - 1);
        assert(t == head.push(low));
        assert(t.drop_last() =~= head);
        assert(hex_value(t) == 16 * hex_value(head) + u % 16);
        if u < pow16(d as nat) {
            assert(pow16(d as nat) == 16 * pow16((d - 1) as nat));
            assert(u / 16 < pow16((d - 1) as nat));
        }
    } else {
        assert(t.drop_last() =~= Seq::<u8>::empty());
        assert(hex_value(Seq::<u8>::empty()) == 0);
        assert(hex_value(t) == 16 * hex_value(t.drop_last()) + u % 16);
        assert(pow16(1) == 16 * pow16(0));
    }
}

/// Character `i` of an input text as a read delivers it: a carriage return
/// reads as a line feed, and past the end every read gives -1.
pub open spec fn ch_at(s: Seq<u8>, i: int) -> i16 {
    if 0 <= i < s.len() {
        if s[i] == 13 {
            10i16
        } else {
            s[i] as i16
        }
    } else {
        -1i16
    }
}

/// Space, tab or line feed.
pub open spec fn is_blank(c: i16) -> bool {
    c == 32 || c == 10 || c == 9
}

pub open spec fn is_digit(c: i16) -> bool {
    48 <= c <= 57
}

/// Index of the first character at or after `i` that is not blank.
pub open spec fn skip_blanks(s: Seq<u8>, i: int) -> int
    decreases s.len() - i,
{
    if 0 <= i < s.len() && is_blank(ch_at(s, i)) {
        skip_blanks(s, i + 1)
    } else {
        i
    }
}

/// Reads digits from `i` on into `acc`, times ten and plus the digit each
/// time, wrapping around; gives where the digits stop and the sum.
pub open spec fn scan_digits(s: Seq<u8>, i: int, acc: i16) -> (int, i16)
    decreases s.len() - i,
{
    if 0 <= i < s.len() && is_digit(ch_at(s, i)) {
        scan_digits(s, i + 1, wrap(acc * 10 + (ch_at(s, i) - 48)))
    } else {
        (i, acc)
    }
}

/// What reading a number finds.
#[derive(Clone, Copy, PartialEq, Eq, Debug)]
pub struct Number {
    /// The number read.
    pub value: i16,
    /// The character that ended it, -1 at the end of the input.
    pub term: i16,
    /// Where reading goes on: just past the terminator.
    pub next: usize,
    /// The input ended before a terminator was seen.
    pub ran_out: bool,
}

/// Reads a number from position `pos` of an input: blanks are skipped, a
/// sign may come first, digits follow, and the first character that is no
/// digit ends the number and is used up.
pub open spec fn readn_spec(s: Seq<u8>, pos: int) -> Number {
    let i0 = skip_blanks(s, pos);
    let sign = ch_at(s, i0);
    let i1 = if (sign == 45 || sign == 43) {
        i0 + 1
    } else {
        i0
    };
    let (i2, sum) = scan_digits(s, i1, 0);
    Number {
        value: if sign == 45 {
            wrap(-sum)
        } else {
            sum
        },
        term: ch_at(s, i2),
        next: (if i2 < s.len() {
            i2 + 1
        } else {
            s.len() as int
        }) as usize,
        ran_out: i2 >= s.len(),
    }
}

/// Character `i` of an input as a read delivers it.
pub fn char_at(s: &Vec<u8>, i: usize) -> (c: i16)
    ensures
        c == ch_at(s@, i as int),
{
    if i < s.len() {
        if s[i] == 13 {
            10
        } else {
            s[i] as i16
        }
    } else {
        -1
    }
}

proof fn lemma_skip_blanks(s: Seq<u8>, i: int)
    requires
        0 <= i <= s.len(),
    ensures
        i <= skip_blanks(s, i) <= s.len(),
    decreases s.len() - i,
{
    if i < s.len() && is_blank(ch_at(s, i)) {
        lemma_skip_blanks(s, i + 1);
    }
}

proof fn lemma_scan_digits(s: Seq<u8>, i: int, acc: i16)
    requires
        0 <= i,
    ensures
        i <= scan_digits(s, i, acc).0,
        i <= s.len() ==> scan_digits(s, i, acc).0 <= s.len(),
    decreases s.len() - i,
{
    if i < s.len() && is_digit(ch_at(s, i)) {
        lemma_scan_digits(s, i + 1, wrap(acc * 10 + (ch_at(s, i) - 48)));
    }
}

/// Reads a number from position `pos` of an input.
pub fn readn(s: &Vec<u8>, pos: usize) -> (r: Number)
    requires
        pos <= s.len(),
    ensures
        r == readn_spec(s@, pos as int),
        pos <= r.next <= s.len(),
{
    let mut i: usize = pos;
    proof {
        lemma_skip_blanks(s@, pos as int);
    }
    while i < s.len() && (char_at(s, i) == 32 || char_at(s, i) == 10 || char_at(s, i) == 9)
        invariant
            pos <= i <= s.len(),
            skip_blanks(s@, i as int) == skip_blanks(s@, pos as int),
        decreases s.len() - i,
    {
        i += 1;
    }
    let sign: i16 = char_at(s, i);
    if sign == 45 || sign == 43 {
        i += 1;
    }
    let ghost i1 = i as int;
    let mut sum: i16 = 0;
    proof {
        lemma_scan_digits(s@, i1, 0);
    }
    while i < s.len() && char_at(s, i) >= 48 && char_at(s, i) <= 57
        invariant
            pos <= i,
            i1 <= s.len() ==> i <= s.len(),
            i1 > s.len() ==> i == i1,
            scan_digits(s@, i as int, sum) == scan_digits(s@, i1, 0),
        decreases s.len() - i,
    {
        sum = wrap16(sum as i64 * 10 + (char_at(s, i) as i64 - 48));
        i += 1;
    }
    let value: i16 = if sign == 45 {
        wrap16(-(sum as i64))
    } else {
        sum
    };
    Number {
        value,
        term: char_at(s, i),
        next: if i < s.len() {
            i + 1
        } else {
            s.len()
        },
        ran_out: i >= s.len(),
    }
}

/// Adding a multiple of 65536 does not change what a value wraps to.
pub proof fn lemma_wrap_shift(x: int, k: int)
    ensures
        wrap(x + 65536 * k) == wrap(x),
{
    vstd::arithmetic::div_mod::lemma_mod_multiples_vanish(k, x + 32768, 65536);
    assert(x + 65536 * k + 32768 == 65536 * k + (x + 32768));
}

/// The sum that the digits in `i .. j` of `s` leave, starting from 0.
spec fn scan_to(s: Seq<u8>, i: int, j: int) -> i16
    decreases j - i,
{
    if j <= i {
        0i16
    } else {
        wrap(scan_to(s, i, j - 1) * 10 + (ch_at(s, j - 1) - 48))
    }
}

proof fn lemma_scan_run(s: Seq<u8>, i0: int, i: int, j: int, acc: i16)
    requires
        0 <= i0 <= i <= j <= s.len(),
        forall|k: int| i0 <= k < j ==> is_digit(#[trigger] ch_at(s, k)),
        !is_digit(ch_at(s, j)),
        acc == scan_to(s, i0, i),
    ensures
        scan_digits(s, i, acc) == (j, scan_to(s, i0, j)),
    decreases j - i,
{
    if i < j {
        assert(is_digit(ch_at(s, i)));
        lemma_scan_run(s, i0, i + 1, j, wrap(acc * 10 + (ch_at(s, i) - 48)));
    }
}

proof fn lemma_dec_digits(n: nat)
    ensures
        dec_digits(n).len() >= 1,
        forall|k: int| 0 <= k < dec_digits(n).len() ==> 48 <= #[trigger] dec_digits(n)[k] <= 57,
    decreases n,
{
    if n >= 10 {
        lemma_dec_digits(n / 10);
    }
}

proof fn lemma_scan_dec(s: Seq<u8>, i0: int, n: nat)
    requires
        0 <= i0,
        i0 + dec_digits(n).len() <= s.len(),
        forall|k: int| 0 <= k < dec_digits(n).len() ==> #[trigger] s[i0 + k] == dec_digits(n)[k],
    ensures
        scan_to(s, i0, i0 + dec_digits(n).len()) == wrap(n as int),
    decreases n,
{
    let t = dec_digits(n);
    let j = i0 + t.len();
    lemma_dec_digits(n);
    assert(s[i0 + (t.len() - 1)] == t[t.len() - 1]);
    assert(ch_at(s, j - 1) - 48 == n % 10);
    if n >= 10 {
        let head = dec_digits(n / 10);
        assert(t == head.push((48 + n % 10) as u8));
        assert forall|k: int| 0 <= k < head.len() implies #[trigger] s[i0 + k] == head[k] by {
            assert(s[i0 + k] == t[k]);
        }
        lemma_scan_dec(s, i0, n / 10);
        let q = ((n / 10) as int + 32768) / 65536;
        assert(wrap((n / 10) as int) == (n / 10) as int - 65536 * q);
        lemma_wrap_shift(n as int, -10 * q);
        assert(scan_to(s, i0, j - 1) * 10 + (n % 10) == n as int + 65536 * (-10 * q));
    } else {
        assert(scan_to(s, i0, j - 1) == 0);
    }
}

/// A number written in decimal and read again is the same number, for
/// every 16-bit value, whatever follows it that is no digit.
pub proof fn lemma_writen_readn_roundtrip(n: i16, rest: Seq<u8>)
    requires
        rest.len() > 0 ==> !is_digit(rest[0] as i16),
    ensures
        readn_spec(writen_spec(n as int) + rest, 0).value == n,
        readn_spec(writen_spec(n as int) + rest, 0).term == ch_at(rest, 0),
        readn_spec(writen_spec(n as int) + rest, 0).ran_out == (rest.len() == 0),
{
    let text = dec_text(n as int);
    assert(writen_spec(n as int) =~= text);
    let s = text + rest;
    let mag: nat = if n < 0 {
        (-n) as nat
    } else {
        n as nat
    };
    let t = dec_digits(mag);
    lemma_dec_digits(mag);
    let i1: int = if n < 0 {
        1
    } else {
        0
    };
    assert(text.len() == i1 + t.len());
    assert forall|k: int| 0 <= k < t.len() implies #[trigger] s[i1 + k] == t[k] by {
        assert(s[i1 + k] == text[i1 + k]);
    }
    assert(s[0] == text[0]);
    assert(!is_blank(ch_at(s, 0)));
    assert(skip_blanks(s, 0) == 0);
    let j = i1 + t.len();
    assert forall|k: int| i1 <= k < j implies is_digit(#[trigger] ch_at(s, k)) by {
        assert(s[i1 + (k - i1)] == t[k - i1]);
    }
    if rest.len() > 0 {
        assert(s[j] == rest[0]);
    }
    assert(ch_at(s, j) == ch_at(rest, 0));
    lemma_scan_run(s, i1, i1, j, 0);
    lemma_scan_dec(s, i1, mag);
    let sum = wrap(mag as int);
    if n < 0 {
        let q = (mag as int + 32768) / 65536;
        assert(sum == mag as int - 65536 * q);
        lemma_wrap_shift(n as int, q);
        assert(-sum == n as int + 65536 * q);
    }
}

} // verus!
