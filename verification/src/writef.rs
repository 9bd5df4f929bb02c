//! Formatted output: a format string with `%` directives and a vector of
//! arguments, both in the memory image.

use vstd::prelude::*;
use crate::word::{word_u, to_u16};
use crate::memory::{byte_of, string_at, string_fits, get_byte, read_string};
use crate::format::{
    decval_spec, decval, hex_text, oct_text, writed_spec, writen_spec, writehex, writeoct, writed,
    writen,
};

verus! {

/// The byte that writing the character `c` puts out: its low byte.
pub open spec fn wrch_byte(c: i16) -> u8 {
    (word_u(c) % 256) as u8
}

/// The text of a format from character `ss` on, after `acc`. The format is
/// the packed string at word `f`, of length `len`; `ai` is the word of the
/// next argument. `%S` puts out the packed string that the argument
/// addresses, `%C` a character, `%N` a number, `%I`, `%O` and `%X` a number
/// in decimal, octal or hexadecimal in the width that the next character
/// gives in base 36; `%` before any other character puts out that character
/// and takes no argument. `None` where a word or byte outside the image
/// would be read.
pub open spec fn writef_from(
    m: Seq<i16>,
    f: int,
    ss: int,
    len: int,
    ai: int,
    acc: Seq<u8>,
) -> Option<Seq<u8>>
    decreases len + 3 - ss,
{
    if ss > len {
        Some(acc)
    } else {
        let c = byte_of(m, 2 * f + ss);
        if c != 37 {
            writef_from(m, f, ss + 1, len, ai, acc.push(c as u8))
        } else if (2 * f + ss + 1) / 2 >= m.len() {
            None
        } else {
            let k = byte_of(m, 2 * f + ss + 1);
            if k == 83 {
                if ai >= m.len() || !string_fits(m, word_u(m[ai])) {
                    None
                } else {
                    writef_from(m, f, ss + 2, len, ai + 1, acc + string_at(m, word_u(m[ai])))
                }
            } else if k == 67 {
                if ai >= m.len() {
                    None
                } else {
                    writef_from(m, f, ss + 2, len, ai + 1, acc.push(wrch_byte(m[ai])))
                }
            } else if k == 78 {
                if ai >= m.len() {
                    None
                } else {
                    writef_from(m, f, ss + 2, len, ai + 1, acc + writen_spec(m[ai] as int))
                }
            } else if k == 79 || k == 88 || k == 73 {
                if ai >= m.len() || (2 * f + ss + 2) / 2 >= m.len() {
                    None
                } else {
                    let d = decval_spec(byte_of(m, 2 * f + ss + 2));
                    let text = if k == 79 {
                        oct_text(word_u(m[ai]) as nat, d)
                    } else if k == 88 {
                        hex_text(word_u(m[ai]) as nat, d)
                    } else {
                        writed_spec(m[ai] as int, d)
                    };
                    writef_from(m, f, ss + 3, len, ai + 1, acc + text)
                }
            } else {
                writef_from(m, f, ss + 2, len, ai, acc.push(k as u8))
            }
        }
    }
}

/// The text of the format whose address is in word `v`, with the arguments
/// in the words after `v`.
pub open spec fn writef_spec(m: Seq<i16>, v: int) -> Option<Seq<u8>> {
    if v < 0 || v >= m.len() || !string_fits(m, word_u(m[v])) {
        None
    } else {
        writef_from(m, word_u(m[v]), 1, byte_of(m, 2 * word_u(m[v])), v + 1, Seq::empty())
    }
}

/// The bytes of a text that was produced, if one was.
pub open spec fn text_of(r: Option<Vec<u8>>) -> Option<Seq<u8>> {
    match r {
        Some(t) => Some(t@),
        None => None,
    }
}

/// Tells whether the packed string at word `p` lies inside the image.
pub fn string_ok(m: &Vec<i16>, p: usize) -> (r: bool)
    requires
        m.len() <= 0x8000,
    ensures
        r == string_fits(m@, p as int),
{
    if p >= m.len() {
        return false;
    }
    let len: usize = get_byte(m, 2 * p) as usize;
    p + len / 2 < m.len()
}

/// Renders the format whose address is in word `v`.
pub fn writef(m: &Vec<i16>, v: usize) -> (r: Option<Vec<u8>>)
    requires
        m.len() <= 0x8000,
    ensures
        text_of(r) == writef_spec(m@, v as int),
{
    if v >= m.len() {
        return None;
    }
    let f: usize = to_u16(m[v]) as usize;
    if !string_ok(m, f) {
        return None;
    }
    let len: usize = get_byte(m, 2 * f) as usize;
    let mut out: Vec<u8> = Vec::new();
    let mut ss: usize = 1;
    let mut ai: usize = v + 1;
    while ss <= len
        invariant
            m.len() <= 0x8000,
            string_fits(m@, f as int),
            len as int == byte_of(m@, 2 * f),
            1 <= ss <= len + 3,
            ai <= m.len(),
            writef_from(m@, f as int, ss as int, len as int, ai as int, out@) == writef_spec(
                m@,
                v as int,
            ),
        decreases len + 3 - ss,
    {
        let c: u8 = get_byte(m, 2 * f + ss);
        if c != 37 {
            out.push(c);
            ss += 1;
            continue ;
        }
        if (2 * f + ss + 1) / 2 >= m.len() {
            return None;
        }
        let k: u8 = get_byte(m, 2 * f + ss + 1);
        if k == 83 {
            if ai >= m.len() {
                return None;
            }
            let p: usize = to_u16(m[ai]) as usize;
            if !string_ok(m, p) {
                return None;
            }
            let mut text: Vec<u8> = read_string(m, p);
            out.append(&mut text);
            ss += 2;
            ai += 1;
        } else if k == 67 {
            if ai >= m.len() {
                return None;
            }
            out.push((to_u16(m[ai]) % 256) as u8);
            ss += 2;
            ai += 1;
        } else if k == 78 {
            if ai >= m.len() {
                return None;
            }
            writen(&mut out, m[ai]);
            ss += 2;
            ai += 1;
        } else if k == 79 || k == 88 || k == 73 {
            if ai >= m.len() || (2 * f + ss + 2) / 2 >= m.len() {
                return None;
            }
            let d: i16 = decval(get_byte(m, 2 * f + ss + 2));
            if k == 79 {
                writeoct(&mut out, to_u16(m[ai]), d);
            } else if k == 88 {
                writehex(&mut out, to_u16(m[ai]), d);
            } else {
                writed(&mut out, m[ai], d);
            }
            ss += 3;
            ai += 1;
        } else {
            out.push(k);
            ss += 2;
        }
    }
    Some(out)
}

} // verus!
