//! The memory image read as bytes, and packed strings.
//!
//! Byte `i` lives in word `i / 2`: the low byte where `i` is even, the high
//! byte where it is odd. A packed string at word `p` holds its length in
//! byte `2p` and its characters in the bytes that follow.

use vstd::prelude::*;
use crate::word::{word_u, word_of, to_u16, to_i16};

verus! {

/// Byte `i` of the image.
pub open spec fn byte_of(m: Seq<i16>, i: int) -> int {
    let u = word_u(m[i / 2]);
    if i % 2 == 0 {
        u % 256
    } else {
        u / 256
    }
}

/// The image with byte `i` set to `v`; the other byte of that word stays.
pub open spec fn with_byte(m: Seq<i16>, i: int, v: int) -> Seq<i16> {
    let u = word_u(m[i / 2]);
    let nu = if i % 2 == 0 {
        (u / 256) * 256 + v
    } else {
        v * 256 + u % 256
    };
    m.update(i / 2, word_of(nu))
}

/// The characters of the packed string at word `p`.
pub open spec fn string_at(m: Seq<i16>, p: int) -> Seq<u8> {
    Seq::new(byte_of(m, 2 * p) as nat, |k: int| byte_of(m, 2 * p + 1 + k) as u8)
}

/// A packed string at word `p` lies inside the image, length byte and all.
pub open spec fn string_fits(m: Seq<i16>, p: int) -> bool {
    0 <= p < m.len() && p + byte_of(m, 2 * p) / 2 < m.len()
}

/// Reading back a byte after one byte was set.
pub proof fn lemma_byte_after_set(m: Seq<i16>, i: int, v: int, j: int)
    requires
        0 <= i,
        i / 2 < m.len(),
        0 <= j,
        j / 2 < m.len(),
        0 <= v < 256,
    ensures
        with_byte(m, i, v).len() == m.len(),
        byte_of(with_byte(m, i, v), j) == (if j == i { v } else { byte_of(m, j) }),
        forall|k: int| 0 <= k < m.len() && k != i / 2 ==> with_byte(m, i, v)[k] == m[k],
{
}

/// Reads byte `i` of the image.
pub fn get_byte(m: &Vec<i16>, i: usize) -> (r: u8)
    requires
        i / 2 < m.len(),
    ensures
        r as int == byte_of(m@, i as int),
{
    let u: u16 = to_u16(m[i / 2]);
    if i % 2 == 0 {
        (u % 256) as u8
    } else {
        (u / 256) as u8
    }
}

/// Writes byte `i` of the image.
pub fn set_byte(m: &mut Vec<i16>, i: usize, v: u8)
    requires
        i / 2 < old(m).len(),
    ensures
        final(m)@ == with_byte(old(m)@, i as int, v as int),
{
    let u: u16 = to_u16(m[i / 2]);
    let nu: u16 = if i % 2 == 0 {
        (u / 256) * 256 + v as u16
    } else {
        (v as u16) * 256 + u % 256
    };
    m[i / 2] = to_i16(nu);
}

/// Copies the packed string at word `p` out of the image.
pub fn read_string(m: &Vec<i16>, p: usize) -> (r: Vec<u8>)
    requires
        m.len() <= 0x8000,
        string_fits(m@, p as int),
    ensures
        r@ == string_at(m@, p as int),
{
    let len: usize = get_byte(m, 2 * p) as usize;
    let mut r: Vec<u8> = Vec::new();
    let mut k: usize = 0;
    while k < len
        invariant
            m.len() <= 0x8000,
            0 <= k <= len,
            len as int == byte_of(m@, 2 * p),
            string_fits(m@, p as int),
            r@.len() == k,
            forall|j: int| 0 <= j < k ==> r@[j] == byte_of(m@, 2 * p + 1 + j) as u8,
        decreases len - k,
    {
        let c: u8 = get_byte(m, 2 * p + 1 + k);
        r.push(c);
        k += 1;
    }
    assert(r@ =~= string_at(m@, p as int));
    r
}

/// The image while a string is packed: bytes `i ..= len` of the vector at
/// `v`, low byte of each word, are still to be written to the string at `s`.
pub open spec fn pack_bytes(m: Seq<i16>, v: int, s: int, i: int, len: int) -> Seq<i16>
    decreases len + 1 - i,
{
    if i > len {
        m
    } else {
        pack_bytes(with_byte(m, 2 * s + i, word_u(m[v + i]) % 256), v, s, i + 1, len)
    }
}

/// The image after the vector at `v` was packed into the string at `s`:
/// the string's last word is cleared, then the length and the characters
/// are written byte by byte.
pub open spec fn pack_spec(m: Seq<i16>, v: int, s: int) -> Seq<i16> {
    let len = m[v] as int;
    pack_bytes(m.update(s + len / 2, 0i16), v, s, 0, len)
}

/// The vector at `v` and the string at `s` that it packs into lie inside the image.
pub open spec fn pack_fits(m: Seq<i16>, v: int, s: int) -> bool {
    &&& 0 <= v < m.len()
    &&& 0 <= s
    &&& m[v] >= 0
    &&& v + m[v] < m.len()
    &&& s + m[v] / 2 < m.len()
}

/// The image while a string is unpacked: bytes `i ..= len` of the string at
/// `s` are still to be written, one to a word, to the vector at `v`.
pub open spec fn unpack_words(m: Seq<i16>, s: int, v: int, i: int, len: int) -> Seq<i16>
    decreases len + 1 - i,
{
    if i > len {
        m
    } else {
        unpack_words(m.update(v + i, byte_of(m, 2 * s + i) as i16), s, v, i + 1, len)
    }
}

/// The image after the string at `s` was unpacked into the vector at `v`.
pub open spec fn unpack_spec(m: Seq<i16>, s: int, v: int) -> Seq<i16> {
    unpack_words(m, s, v, 0, byte_of(m, 2 * s))
}

/// The string at `s` and the vector at `v` that it unpacks into lie inside the image.
pub open spec fn unpack_fits(m: Seq<i16>, s: int, v: int) -> bool {
    &&& 0 <= s < m.len()
    &&& 0 <= v
    &&& s + byte_of(m, 2 * s) / 2 < m.len()
    &&& v + byte_of(m, 2 * s) < m.len()
}

proof fn lemma_pack_len(m: Seq<i16>, v: int, s: int, i: int, len: int)
    requires
        0 <= i <= len + 1,
        0 <= s,
        0 <= v,
        v + len < m.len(),
        s + len / 2 < m.len(),
    ensures
        pack_bytes(m, v, s, i, len).len() == m.len(),
    decreases len + 1 - i,
{
    if i <= len {
        lemma_pack_len(with_byte(m, 2 * s + i, word_u(m[v + i]) % 256), v, s, i + 1, len);
    }
}

proof fn lemma_unpack_len(m: Seq<i16>, s: int, v: int, i: int, len: int)
    requires
        0 <= i <= len + 1,
        0 <= s,
        0 <= v,
        v + len < m.len(),
        s + len / 2 < m.len(),
    ensures
        unpack_words(m, s, v, i, len).len() == m.len(),
    decreases len + 1 - i,
{
    if i <= len {
        lemma_unpack_len(m.update(v + i, byte_of(m, 2 * s + i) as i16), s, v, i + 1, len);
    }
}

/// Packs the vector at word `v` (its length in word 0, one character to
/// each word after it) into the string at word `s`; returns the index of
/// the string's last word, counted from `s`.
pub fn packstring(m: &mut Vec<i16>, v: usize, s: usize) -> (r: i16)
    requires
        old(m).len() <= 0x8000,
        pack_fits(old(m)@, v as int, s as int),
    ensures
        final(m)@ == pack_spec(old(m)@, v as int, s as int),
        final(m).len() == old(m).len(),
        r == old(m)[v as int] / 2,
{
    let len: usize = m[v] as usize;
    let n: usize = len / 2;
    m[s + n] = 0;
    let mut i: usize = 0;
    proof {
        lemma_pack_len(m@, v as int, s as int, 0, len as int);
    }
    while i <= len
        invariant
            0 <= i <= len + 1,
            m.len() == old(m).len(),
            m.len() <= 0x8000,
            v + len < m.len(),
            s + len / 2 < m.len(),
            pack_bytes(m@, v as int, s as int, i as int, len as int) == pack_spec(
                old(m)@,
                v as int,
                s as int,
            ),
        decreases len + 1 - i,
    {
        let c: u8 = (to_u16(m[v + i]) % 256) as u8;
        set_byte(m, 2 * s + i, c);
        i += 1;
    }
    n as i16
}

/// Unpacks the string at word `s` into the vector at word `v`: the length
/// goes to word 0, each character to a word of its own after it.
pub fn unpackstring(m: &mut Vec<i16>, s: usize, v: usize)
    requires
        old(m).len() <= 0x8000,
        unpack_fits(old(m)@, s as int, v as int),
    ensures
        final(m)@ == unpack_spec(old(m)@, s as int, v as int),
        final(m).len() == old(m).len(),
{
    let len: usize = get_byte(m, 2 * s) as usize;
    let mut i: usize = 0;
    proof {
        lemma_unpack_len(m@, s as int, v as int, 0, len as int);
    }
    while i <= len
        invariant
            0 <= i <= len + 1,
            len < 256,
            m.len() == old(m).len(),
            m.len() <= 0x8000,
            v + len < m.len(),
            s + len / 2 < m.len(),
            unpack_words(m@, s as int, v as int, i as int, len as int) == unpack_spec(
                old(m)@,
                s as int,
                v as int,
            ),
        decreases len + 1 - i,
    {
        let c: u8 = get_byte(m, 2 * s + i);
        m[v + i] = c as i16;
        i += 1;
    }
}

/// What packing leaves in the image when the vector and the string do not
/// overlap: each remaining byte of the string holds the low byte of its
/// word of the vector, and nothing outside the string has changed.
proof fn lemma_pack_bytes_result(m: Seq<i16>, v: int, s: int, i: int, len: int)
    requires
        0 <= i <= len + 1,
        0 <= s,
        0 <= v,
        v + len < m.len(),
        s + len / 2 < m.len(),
        v + len < s || s + len / 2 < v,
    ensures
        pack_bytes(m, v, s, i, len).len() == m.len(),
        forall|j: int|
            i <= j <= len ==> byte_of(pack_bytes(m, v, s, i, len), 2 * s + j) == word_u(
                #[trigger] m[v + j],
            ) % 256,
        forall|j: int|
            0 <= j < 2 * s + i && j / 2 < m.len() ==> #[trigger] byte_of(
                pack_bytes(m, v, s, i, len),
                j,
            ) == byte_of(m, j),
        forall|k: int|
            0 <= k < m.len() && (k < s || k > s + len / 2) ==> #[trigger] pack_bytes(
                m,
                v,
                s,
                i,
                len,
            )[k] == m[k],
    decreases len + 1 - i,
{
    if i <= len {
        let c = word_u(m[v + i]) % 256;
        let m1 = with_byte(m, 2 * s + i, c);
        lemma_pack_bytes_result(m1, v, s, i + 1, len);
        let r = pack_bytes(m, v, s, i, len);
        assert(r == pack_bytes(m1, v, s, i + 1, len));
        assert forall|j: int| i <= j <= len implies byte_of(r, 2 * s + j) == word_u(
            #[trigger] m[v + j],
        ) % 256 by {
            lemma_byte_after_set(m, 2 * s + i, c, 2 * s + j);
            assert(m1[v + j] == m[v + j]);
            if j == i {
                assert(byte_of(r, 2 * s + i) == byte_of(m1, 2 * s + i));
            }
        }
        assert forall|j: int| 0 <= j < 2 * s + i && j / 2 < m.len() implies #[trigger] byte_of(
            r,
            j,
        ) == byte_of(m, j) by {
            lemma_byte_after_set(m, 2 * s + i, c, j);
            assert(byte_of(r, j) == byte_of(m1, j));
        }
        assert forall|k: int| 0 <= k < m.len() && (k < s || k > s + len / 2) implies #[trigger] r[k]
            == m[k] by {
            assert(r[k] == m1[k]);
        }
    }
}

/// What unpacking leaves in the image when the string and the vector do
/// not overlap: each remaining word of the vector holds its byte of the
/// string, and nothing outside the vector has changed.
proof fn lemma_unpack_words_result(m: Seq<i16>, s: int, v: int, i: int, len: int)
    requires
        0 <= i <= len + 1,
        0 <= s,
        0 <= v,
        v + len < m.len(),
        s + len / 2 < m.len(),
        v + len < s || s + len / 2 < v,
    ensures
        unpack_words(m, s, v, i, len).len() == m.len(),
        forall|j: int|
            i <= j <= len ==> #[trigger] unpack_words(m, s, v, i, len)[v + j] == byte_of(
                m,
                2 * s + j,
            ),
        forall|k: int|
            0 <= k < m.len() && (k < v + i || k > v + len) ==> #[trigger] unpack_words(
                m,
                s,
                v,
                i,
                len,
            )[k] == m[k],
    decreases len + 1 - i,
{
    if i <= len {
        let m1 = m.update(v + i, byte_of(m, 2 * s + i) as i16);
        lemma_unpack_words_result(m1, s, v, i + 1, len);
        let r = unpack_words(m, s, v, i, len);
        assert(r == unpack_words(m1, s, v, i + 1, len));
        assert forall|j: int| i <= j <= len implies #[trigger] r[v + j] == byte_of(
            m,
            2 * s + j,
        ) by {
            assert(m1[(2 * s + j) / 2] == m[(2 * s + j) / 2]);
            if j == i {
                assert(r[v + i] == m1[v + i]);
            } else {
                assert(r[v + j] == byte_of(m1, 2 * s + j));
            }
        }
        assert forall|k: int| 0 <= k < m.len() && (k < v + i || k > v + len) implies #[trigger] r[k]
            == m[k] by {
            assert(r[k] == m1[k]);
        }
    }
}

/// Packing a vector of at most 255 characters and unpacking the string
/// again gives back the length and every character, wherever the unpacked
/// vector is put, as long as neither vector overlaps the string.
pub proof fn lemma_pack_unpack_roundtrip(m: Seq<i16>, v: int, s: int, v2: int)
    requires
        pack_fits(m, v, s),
        0 <= m[v] <= 255,
        forall|j: int| 1 <= j <= m[v] ==> 0 <= #[trigger] m[v + j] < 256,
        v + m[v] < s || s + m[v] / 2 < v,
        0 <= v2,
        v2 + m[v] < m.len(),
        v2 + m[v] < s || s + m[v] / 2 < v2,
    ensures
        unpack_fits(pack_spec(m, v, s), s, v2),
        unpack_spec(pack_spec(m, v, s), s, v2).len() == m.len(),
        forall|j: int|
            0 <= j <= m[v] ==> #[trigger] unpack_spec(pack_spec(m, v, s), s, v2)[v2 + j] == m[v
                + j],
{
    let len = m[v] as int;
    let m0 = m.update(s + len / 2, 0i16);
    lemma_pack_bytes_result(m0, v, s, 0, len);
    let m1 = pack_spec(m, v, s);
    assert(m1 == pack_bytes(m0, v, s, 0, len));
    assert(m0[v + 0] == m[v]);
    assert(byte_of(m1, 2 * s + 0) == word_u(m0[v + 0]) % 256);
    assert(byte_of(m1, 2 * s) == len);
    lemma_unpack_words_result(m1, s, v2, 0, len);
    let m2 = unpack_spec(m1, s, v2);
    assert(m2 == unpack_words(m1, s, v2, 0, len));
    assert forall|j: int| 0 <= j <= len implies #[trigger] m2[v2 + j] == m[v + j] by {
        assert(m2[v2 + j] == byte_of(m1, 2 * s + j));
        assert(byte_of(m1, 2 * s + j) == word_u(m0[v + j]) % 256);
        assert(m0[v + j] == m[v + j]);
    }
}

} // verus!
