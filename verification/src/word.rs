//! Machine constants and arithmetic on 16-bit words.

use vstd::prelude::*;

verus! {

/// First word of assembled code; the words below it hold their own index.
pub const PROGSTART: usize = 401;

/// Number of words in the memory image.
pub const WORDCOUNT: usize = 19900;

/// Number of label slots at the top of the image during assembly.
pub const LABVCOUNT: usize = 500;

/// First word of the label table.
pub const LABV: usize = 19400;

pub const F0_L: u16 = 0;
pub const F1_S: u16 = 1;
pub const F2_A: u16 = 2;
pub const F3_J: u16 = 3;
pub const F4_T: u16 = 4;
pub const F5_F: u16 = 5;
pub const F6_K: u16 = 6;
pub const F7_X: u16 = 7;

/// Modifier: the operand is replaced by the word it addresses.
pub const FI_BIT: u16 = 8;

/// Modifier: the stack pointer is added to the operand.
pub const FP_BIT: u16 = 16;

/// Modifier: the operand is the word that follows the instruction.
pub const FD_BIT: u16 = 32;

pub const K01_START: i16 = 1;
pub const K03_ABORT: i16 = 3;
pub const K11_SELECTINPUT: i16 = 11;
pub const K12_SELECTOUTPUT: i16 = 12;
pub const K13_RDCH: i16 = 13;
pub const K14_WRCH: i16 = 14;
pub const K16_INPUT: i16 = 16;
pub const K17_OUTPUT: i16 = 17;
pub const K30_STOP: i16 = 30;
pub const K31_LEVEL: i16 = 31;
pub const K32_LONGJUMP: i16 = 32;
pub const K40_APTOVEC: i16 = 40;
pub const K41_FINDOUTPUT: i16 = 41;
pub const K42_FINDINPUT: i16 = 42;
pub const K46_ENDREAD: i16 = 46;
pub const K47_ENDWRITE: i16 = 47;
pub const K60_WRITES: i16 = 60;
pub const K62_WRITEN: i16 = 62;
pub const K63_NEWLINE: i16 = 63;
pub const K64_NEWPAGE: i16 = 64;
pub const K66_PACKSTRING: i16 = 66;
pub const K67_UNPACKSTRING: i16 = 67;
pub const K68_WRITED: i16 = 68;
pub const K70_READN: i16 = 70;
pub const K71_TERMINATOR: usize = 71;
pub const K75_WRITEHEX: i16 = 75;
pub const K76_WRITEF: i16 = 76;
pub const K77_WRITEOCT: i16 = 77;
pub const K85_GETBYTE: i16 = 85;
pub const K86_PUTBYTE: i16 = 86;
pub const K87_GETVEC: i16 = 87;
pub const K88_FREEVEC: i16 = 88;
pub const K90_CHANGECO: i16 = 90;

/// What a read returns at the end of a stream.
pub const ENDSTREAMCH: i16 = -1;

/// The unsigned reading of a word: the value in `0 .. 65536` with the same bits.
pub open spec fn word_u(w: i16) -> int {
    if w >= 0 {
        w as int
    } else {
        w + 65536
    }
}

/// The word whose unsigned reading is `u`, for `u` in `0 .. 65536`.
pub open spec fn word_of(u: int) -> i16 {
    if u < 32768 {
        u as i16
    } else {
        (u - 65536) as i16
    }
}

/// The signed 16-bit value congruent to `x` modulo 65536.
pub open spec fn wrap(x: int) -> i16 {
    (((x + 32768) % 65536) - 32768) as i16
}

/// Quotient rounded toward zero.
pub open spec fn quot(b: int, a: int) -> int {
    if a == 0 {
        0
    } else if b >= 0 && a > 0 {
        b / a
    } else if b >= 0 {
        -(b / (-a))
    } else if a > 0 {
        -((-b) / a)
    } else {
        (-b) / (-a)
    }
}

/// Remainder that goes with `quot`: it has the sign of the dividend.
pub open spec fn rem(b: int, a: int) -> int {
    b - a * quot(b, a)
}

/// A signed word read as unsigned, bit for bit.
pub fn to_u16(w: i16) -> (r: u16)
    ensures
        r as int == word_u(w),
{
    if w >= 0 {
        w as u16
    } else {
        (w as i32 + 65536) as u16
    }
}

/// An unsigned word read as signed, bit for bit.
pub fn to_i16(u: u16) -> (r: i16)
    ensures
        r == word_of(u as int),
        word_u(r) == u as int,
{
    if u < 32768 {
        u as i16
    } else {
        (u as i32 - 65536) as i16
    }
}

/// Reduces a wide value to a signed word, wrapping around.
pub fn wrap16(x: i64) -> (r: i16)
    requires
        -0x4000_0000_0000 <= x <= 0x4000_0000_0000,
    ensures
        r == wrap(x as int),
{
    let shifted: u64 = (x + 32768 + 0x1_0000_0000_0000) as u64;
    let low: u64 = shifted % 65536;
    assert(low as int == (x + 32768) % 65536) by {
        assert(0x1_0000_0000_0000int == 65536int * 0x1_0000_0000int);
        vstd::arithmetic::div_mod::lemma_mod_multiples_vanish(0x1_0000_0000int, x + 32768, 65536);
    };
    (low as i64 - 32768) as i16
}

/// `a + d` on signed words, wrapping around.
pub fn add16(a: i16, d: i16) -> (r: i16)
    ensures
        r == wrap(a + d),
{
    wrap16(a as i64 + d as i64)
}

/// `b - a` on signed words, wrapping around.
pub fn sub16(b: i16, a: i16) -> (r: i16)
    ensures
        r == wrap(b - a),
{
    wrap16(b as i64 - a as i64)
}

/// `a * b` on signed words, wrapping around.
pub fn mul16(a: i16, b: i16) -> (r: i16)
    ensures
        r == wrap(a * b),
{
    assert(-0x4000_0000 <= a * b <= 0x4000_0000) by (nonlinear_arith)
        requires
            -32768 <= a <= 32767,
            -32768 <= b <= 32767,
    ;
    wrap16(a as i64 * b as i64)
}

/// `-a` on a signed word, wrapping around.
pub fn neg16(a: i16) -> (r: i16)
    ensures
        r == wrap(-a),
{
    wrap16(-(a as i64))
}

/// The magnitude of a signed word.
fn magnitude(x: i16) -> (r: u32)
    ensures
        r as int == (if x >= 0 { x as int } else { -x }),
{
    if x >= 0 {
        x as u32
    } else {
        (-(x as i32)) as u32
    }
}

/// `b / a` rounded toward zero, wrapping around; `a` is not zero.
pub fn div16(b: i16, a: i16) -> (r: i16)
    requires
        a != 0,
    ensures
        r == wrap(quot(b as int, a as int)),
{
    let mb: u32 = magnitude(b);
    let ma: u32 = magnitude(a);
    let q: u32 = mb / ma;
    assert(q <= 32768) by (nonlinear_arith)
        requires
            q == mb / ma,
            mb <= 32768,
            ma >= 1,
    ;
    if (b >= 0) == (a > 0) {
        wrap16(q as i64)
    } else {
        wrap16(-(q as i64))
    }
}

/// The remainder of `b / a`, with the sign of `b`; `a` is not zero.
pub fn rem16(b: i16, a: i16) -> (r: i16)
    requires
        a != 0,
    ensures
        r == wrap(rem(b as int, a as int)),
{
    let mb: u32 = magnitude(b);
    let ma: u32 = magnitude(a);
    let q: u32 = mb / ma;
    assert(q <= 32768) by (nonlinear_arith)
        requires
            q == mb / ma,
            mb <= 32768,
            ma >= 1,
    ;
    let sq: i64 = if (b >= 0) == (a > 0) {
        q as i64
    } else {
        -(q as i64)
    };
    assert(-0x4000_0000 <= a * sq <= 0x4000_0000) by (nonlinear_arith)
        requires
            -32768 <= a <= 32767,
            -32768 <= sq <= 32768,
    ;
    wrap16(b as i64 - (a as i64) * sq)
}

} // verus!
