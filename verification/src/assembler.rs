//! The loader-assembler: turns intermediate-code text into words of the
//! image, linking forward references through chains that run through the
//! placeholder words themselves.
//!
//! Label `n` has the table entry at word `LABV + n`: 0 while unseen, the
//! address of the latest placeholder while unresolved, minus the address
//! once defined. Each placeholder holds the address of the one before it.

use vstd::prelude::*;
use crate::word::{
    word_u, word_of, wrap, wrap16, to_u16, to_i16, WORDCOUNT, LABV, LABVCOUNT, F0_L, F1_S, F2_A,
    F3_J, F4_T, F5_F, F6_K, F7_X, FI_BIT, FP_BIT, FD_BIT,
};
use crate::memory::{with_byte, set_byte};
use crate::format::{ch_at, char_at, is_digit};

verus! {

/// The memory image with the assembler's two cursors.
pub struct Image {
    /// The words.
    pub m: Vec<i16>,
    /// The next word to emit.
    pub lomem: usize,
    /// The next byte within the word that character data is packed into.
    pub cp: usize,
}

/// An image as mathematical values.
pub struct ImageView {
    pub m: Seq<i16>,
    pub lomem: int,
    pub cp: int,
}

impl View for Image {
    type V = ImageView;

    open spec fn view(&self) -> ImageView {
        ImageView { m: self.m@, lomem: self.lomem as int, cp: self.cp as int }
    }
}

/// The image has its full size, code ends below the label table, and a
/// half-filled character word is the last word emitted.
pub open spec fn image_wf(iv: ImageView) -> bool {
    &&& iv.m.len() == WORDCOUNT
    &&& 0 <= iv.lomem <= LABV
    &&& 0 <= iv.cp <= 1
    &&& iv.cp == 1 ==> iv.lomem >= 1
}

/// Why assembly stopped.
#[derive(Clone, Copy, PartialEq, Eq, Debug)]
pub enum AsmError {
    /// A label was defined twice.
    DuplicateLabel(i16),
    /// A unit ended while a label was referenced and not defined.
    UnsetLabel(i16),
    /// A character that starts no directive.
    BadCh(i16),
    /// A directive that cannot be carried out, with the emit position.
    BadCode(i16),
}

/// First index at or after `p` that holds a line feed, or the end.
pub open spec fn eol(src: Seq<u8>, p: int) -> int
    decreases src.len() - p,
{
    if 0 <= p < src.len() && ch_at(src, p) != 10 {
        eol(src, p + 1)
    } else {
        p
    }
}

/// First index at or after `p` that holds no line feed.
pub open spec fn skip_lf(src: Seq<u8>, p: int) -> int
    decreases src.len() - p,
{
    if 0 <= p < src.len() && ch_at(src, p) == 10 {
        skip_lf(src, p + 1)
    } else {
        p
    }
}

/// First index at or after `p` that does not start a comment: a `/` hides
/// the rest of its line and the line feeds after it.
pub open spec fn skip_comments(src: Seq<u8>, p: int) -> int
    decreases src.len() - p,
{
    if 0 <= p < src.len() && ch_at(src, p) == 47 {
        let r = skip_lf(src, eol(src, p + 1));
        if p < r <= src.len() {
            skip_comments(src, r)
        } else {
            p
        }
    } else {
        p
    }
}

/// Index of the character after the one at `pos`, comments skipped.
pub open spec fn rch_spec(src: Seq<u8>, pos: int) -> int {
    if 0 <= pos < src.len() {
        skip_comments(src, pos + 1)
    } else {
        pos
    }
}

/// Reads digits from `pos` on into `acc`; gives where they stop and the sum.
pub open spec fn rdn_digits(src: Seq<u8>, pos: int, acc: i16) -> (int, i16)
    decreases src.len() - pos,
{
    if 0 <= pos < src.len() && is_digit(ch_at(src, pos)) && pos < rch_spec(src, pos) <= src.len() {
        rdn_digits(src, rch_spec(src, pos), wrap(acc * 10 + (ch_at(src, pos) - 48)))
    } else {
        (pos, acc)
    }
}

/// Reads a decimal number at `pos`, with a minus sign before it or none;
/// gives where it stops and its value, wrapped to a word.
pub open spec fn rdn_spec(src: Seq<u8>, pos: int) -> (int, i16) {
    let neg = ch_at(src, pos) == 45;
    let c1 = if neg {
        rch_spec(src, pos)
    } else {
        pos
    };
    let r = rdn_digits(src, c1, 0);
    (
        r.0,
        if neg {
            wrap(-r.1)
        } else {
            r.1
        },
    )
}

/// The image after word `a` was made to refer to label `n`. Where the
/// label is defined its address is added to the word; else the word joins
/// the label's chain: the old head is added to it and it becomes the head.
pub open spec fn labref_spec(m: Seq<i16>, n: int, a: int) -> Seq<i16> {
    let k = m[LABV + n];
    if k < 0 {
        m.update(a, wrap(m[a] + wrap(-k)))
    } else {
        let m1 = m.update(LABV + n, a as i16);
        m1.update(a, wrap(m1[a] + k))
    }
}

/// The image after every placeholder of the chain that starts at `k` was
/// given `target`; `None` where the chain leaves the image or does not end
/// within `fuel` links.
pub open spec fn patch_chain(m: Seq<i16>, k: int, target: i16, fuel: nat) -> Option<Seq<i16>>
    decreases fuel,
{
    if k <= 0 {
        Some(m)
    } else if fuel == 0 || k >= m.len() {
        None
    } else {
        patch_chain(m.update(k, target), m[k] as int, target, (fuel - 1) as nat)
    }
}

/// The first label at or after `i` whose entry is positive, or `LABVCOUNT`.
pub open spec fn first_unset(m: Seq<i16>, i: int) -> int
    decreases LABVCOUNT - i,
{
    if i < 0 || i >= LABVCOUNT {
        LABVCOUNT as int
    } else if m[LABV + i] > 0 {
        i
    } else {
        first_unset(m, i + 1)
    }
}

/// The image with every label unseen.
pub open spec fn clear_labels(m: Seq<i16>) -> Seq<i16> {
    Seq::new(
        m.len(),
        |i: int|
            if LABV <= i < LABV + LABVCOUNT {
                0i16
            } else {
                m[i]
            },
    )
}

/// The function code that a directive letter stands for, or -1.
pub open spec fn fn_code(c: i16) -> int {
    if c == 76 {
        F0_L as int
    } else if c == 83 {
        F1_S as int
    } else if c == 65 {
        F2_A as int
    } else if c == 74 {
        F3_J as int
    } else if c == 84 {
        F4_T as int
    } else if c == 70 {
        F5_F as int
    } else if c == 75 {
        F6_K as int
    } else if c == 88 {
        F7_X as int
    } else {
        -1
    }
}

/// The image after word `w` was emitted.
pub open spec fn emit(iv: ImageView, w: i16) -> ImageView {
    ImageView { m: iv.m.update(iv.lomem, w), lomem: iv.lomem + 1, cp: 0 }
}

/// A label definition at `pos`: every placeholder on the label's chain is
/// given the emit position, and the entry becomes minus that position.
pub open spec fn define_spec(iv: ImageView, src: Seq<u8>, pos: int) -> Result<
    (ImageView, int),
    AsmError,
> {
    let (c1, n) = rdn_spec(src, pos);
    if !(0 <= n < LABVCOUNT) {
        Err(AsmError::BadCode(iv.lomem as i16))
    } else if iv.m[LABV + n] < 0 {
        Err(AsmError::DuplicateLabel(n))
    } else {
        match patch_chain(iv.m, iv.m[LABV + n] as int, iv.lomem as i16, WORDCOUNT as nat) {
            None => Err(AsmError::BadCode(iv.lomem as i16)),
            Some(m2) => Ok(
                (ImageView { m: m2.update(LABV + n, (-iv.lomem) as i16), lomem: iv.lomem, cp: 0 }, c1),
            ),
        }
    }
}

/// An instruction with function code `code`, whose letter is at `pos`. The
/// modifiers `I`, `P` and `G` may follow in this order; `G` changes
/// nothing. Then either `L` and a label: the long form, with the label
/// reference in the operand word; or a number: the short form where it is
/// in `0 ..= 255`, else the long form.
pub open spec fn instr_spec(iv: ImageView, src: Seq<u8>, pos: int, code: int) -> Result<
    (ImageView, int),
    AsmError,
> {
    let c0 = rch_spec(src, pos);
    let fi: int = if ch_at(src, c0) == 73 {
        FI_BIT as int
    } else {
        0
    };
    let c1 = if ch_at(src, c0) == 73 {
        rch_spec(src, c0)
    } else {
        c0
    };
    let fp: int = if ch_at(src, c1) == 80 {
        FP_BIT as int
    } else {
        0
    };
    let c2 = if ch_at(src, c1) == 80 {
        rch_spec(src, c1)
    } else {
        c1
    };
    let c3 = if ch_at(src, c2) == 71 {
        rch_spec(src, c2)
    } else {
        c2
    };
    let n = code + fi + fp;
    if ch_at(src, c3) == 76 {
        let (c5, lab) = rdn_spec(src, rch_spec(src, c3));
        if iv.lomem + 2 > LABV || !(0 <= lab < LABVCOUNT) {
            Err(AsmError::BadCode(iv.lomem as i16))
        } else {
            let iv2 = emit(emit(iv, word_of(n + FD_BIT)), 0);
            Ok(
                (
                    ImageView { m: labref_spec(iv2.m, lab as int, iv.lomem + 1), lomem: iv2.lomem, cp: 0 },
                    c5,
                ),
            )
        }
    } else {
        let (c5, d) = rdn_spec(src, c3);
        if 0 <= d <= 255 {
            if iv.lomem + 1 > LABV {
                Err(AsmError::BadCode(iv.lomem as i16))
            } else {
                Ok((emit(iv, word_of(n + 256 * d)), c5))
            }
        } else if iv.lomem + 2 > LABV {
            Err(AsmError::BadCode(iv.lomem as i16))
        } else {
            Ok((emit(emit(iv, word_of(n + FD_BIT)), d), c5))
        }
    }
}

/// A `C` directive at `pos`: the low byte of its number goes into the
/// current character word, low byte first; a fresh zero word is emitted
/// where a new pair starts.
pub open spec fn char_spec(iv: ImageView, src: Seq<u8>, pos: int) -> Result<
    (ImageView, int),
    AsmError,
> {
    let (c1, val) = rdn_spec(src, rch_spec(src, pos));
    let b = word_u(val) % 256;
    if iv.cp == 0 {
        if iv.lomem + 1 > LABV {
            Err(AsmError::BadCode(iv.lomem as i16))
        } else {
            let iv2 = emit(iv, 0);
            Ok((ImageView { m: with_byte(iv2.m, 2 * iv.lomem, b), lomem: iv2.lomem, cp: 1 }, c1))
        }
    } else {
        Ok(
            (
                ImageView { m: with_byte(iv.m, 2 * (iv.lomem - 1) + 1, b), lomem: iv.lomem, cp: 0 },
                c1,
            ),
        )
    }
}

/// A `D` directive at `pos`: a data word that holds a number, or after `L`
/// a reference to a label.
pub open spec fn data_spec(iv: ImageView, src: Seq<u8>, pos: int) -> Result<
    (ImageView, int),
    AsmError,
> {
    let c0 = rch_spec(src, pos);
    if ch_at(src, c0) == 76 {
        let (c2, lab) = rdn_spec(src, rch_spec(src, c0));
        if iv.lomem + 1 > LABV || !(0 <= lab < LABVCOUNT) {
            Err(AsmError::BadCode(iv.lomem as i16))
        } else {
            let iv2 = emit(iv, 0);
            Ok(
                (
                    ImageView { m: labref_spec(iv2.m, lab as int, iv.lomem), lomem: iv2.lomem, cp: 0 },
                    c2,
                ),
            )
        }
    } else {
        let (c2, val) = rdn_spec(src, c0);
        if iv.lomem + 1 > LABV {
            Err(AsmError::BadCode(iv.lomem as i16))
        } else {
            Ok((emit(iv, val), c2))
        }
    }
}

/// A `G` directive at `pos`: the word at the slot it names is cleared and
/// made to refer to the label after `L`.
pub open spec fn global_spec(iv: ImageView, src: Seq<u8>, pos: int) -> Result<
    (ImageView, int),
    AsmError,
> {
    let (c1, slot) = rdn_spec(src, rch_spec(src, pos));
    if ch_at(src, c1) != 76 {
        Err(AsmError::BadCode(iv.lomem as i16))
    } else {
        let (c3, lab) = rdn_spec(src, rch_spec(src, c1));
        if !(0 <= slot < WORDCOUNT) || !(0 <= lab < LABVCOUNT) {
            Err(AsmError::BadCode(iv.lomem as i16))
        } else {
            Ok(
                (
                    ImageView {
                        m: labref_spec(iv.m.update(slot as int, 0i16), lab as int, slot as int),
                        lomem: iv.lomem,
                        cp: iv.cp,
                    },
                    c3,
                ),
            )
        }
    }
}

/// The end of a unit. A label that is referenced and not defined is an
/// error, which names the first such label; else every label becomes
/// unseen.
pub open spec fn close_unit(iv: ImageView) -> Result<ImageView, AsmError> {
    let n = first_unset(iv.m, 0);
    if n < LABVCOUNT {
        Err(AsmError::UnsetLabel(n as i16))
    } else {
        Ok(ImageView { m: clear_labels(iv.m), lomem: iv.lomem, cp: 0 })
    }
}

/// A `Z` directive at `pos`: the unit ends.
pub open spec fn unit_end_spec(iv: ImageView, src: Seq<u8>, pos: int) -> Result<
    (ImageView, int),
    AsmError,
> {
    match close_unit(iv) {
        Err(e) => Err(e),
        Ok(iv2) => Ok((iv2, rch_spec(src, pos))),
    }
}

/// The directive whose first character is at `pos`: the image after it and
/// the position of the next directive, or the error it stops with.
pub open spec fn directive_spec(iv: ImageView, src: Seq<u8>, pos: int) -> Result<
    (ImageView, int),
    AsmError,
> {
    let c = ch_at(src, pos);
    if is_digit(c) {
        define_spec(iv, src, pos)
    } else if c == 36 || c == 32 || c == 10 {
        Ok((iv, rch_spec(src, pos)))
    } else if fn_code(c) >= 0 {
        instr_spec(iv, src, pos, fn_code(c))
    } else if c == 67 {
        char_spec(iv, src, pos)
    } else if c == 68 {
        data_spec(iv, src, pos)
    } else if c == 71 {
        global_spec(iv, src, pos)
    } else if c == 90 {
        unit_end_spec(iv, src, pos)
    } else {
        Err(AsmError::BadCh(c))
    }
}

/// Directive after directive from `pos` to the end of the source, where
/// the last unit ends as it does at a `Z`.
pub open spec fn assemble_from(iv: ImageView, src: Seq<u8>, pos: int) -> Result<ImageView, AsmError>
    decreases src.len() - pos,
{
    if pos < 0 || pos >= src.len() {
        close_unit(iv)
    } else {
        match directive_spec(iv, src, pos) {
            Err(e) => Err(e),
            Ok((iv2, c2)) => if pos < c2 <= src.len() {
                assemble_from(iv2, src, c2)
            } else {
                Ok(iv2)
            },
        }
    }
}

/// The image after a whole source text was assembled into it: the labels
/// start unseen, the first directive is at the first character that is
/// not in a comment, and the end of the source ends the last unit. So
/// assembly succeeds only where every label that is referenced is
/// defined in its unit, and leaves every label unseen.
pub open spec fn assemble_spec(iv: ImageView, src: Seq<u8>) -> Result<ImageView, AsmError> {
    assemble_from(
        ImageView { m: clear_labels(iv.m), lomem: iv.lomem, cp: 0 },
        src,
        skip_comments(src, 0),
    )
}

/// The image after the chain that starts at `k` was patched as far as it
/// can be followed: to its end, or to the link that leaves the image or
/// comes after `fuel` others.
pub open spec fn patch_partial(m: Seq<i16>, k: int, target: i16, fuel: nat) -> Seq<i16>
    decreases fuel,
{
    if k <= 0 || fuel == 0 || k >= m.len() {
        m
    } else {
        patch_partial(m.update(k, target), m[k] as int, target, (fuel - 1) as nat)
    }
}

/// The image that a directive leaves where it fails: the image as it
/// was, but for a label definition whose chain cannot be followed to its
/// end, which leaves the chain patched as far as it went.
pub open spec fn failed_image(iv: ImageView, src: Seq<u8>, pos: int) -> ImageView {
    let n = rdn_spec(src, pos).1;
    if is_digit(ch_at(src, pos)) && 0 <= n < LABVCOUNT && iv.m[LABV + n] >= 0 {
        ImageView {
            m: patch_partial(iv.m, iv.m[LABV + n] as int, iv.lomem as i16, WORDCOUNT as nat),
            lomem: iv.lomem,
            cp: iv.cp,
        }
    } else {
        iv
    }
}

/// The image after the directive at `pos`, whether it fails or not.
pub open spec fn directive_image(iv: ImageView, src: Seq<u8>, pos: int) -> ImageView {
    match directive_spec(iv, src, pos) {
        Ok((iv2, _)) => iv2,
        Err(_) => failed_image(iv, src, pos),
    }
}

/// The image after directive on directive from `pos` on, up to the end of
/// the source or the first directive that fails. Where the end of the
/// source finds a label referenced and not defined, the image stays as
/// the last directive left it.
pub open spec fn image_from(iv: ImageView, src: Seq<u8>, pos: int) -> ImageView
    decreases src.len() - pos,
{
    if pos < 0 || pos >= src.len() {
        match close_unit(iv) {
            Ok(iv2) => iv2,
            Err(_) => iv,
        }
    } else {
        match directive_spec(iv, src, pos) {
            Err(_) => failed_image(iv, src, pos),
            Ok((iv2, c2)) => if pos < c2 <= src.len() {
                image_from(iv2, src, c2)
            } else {
                iv2
            },
        }
    }
}

/// The image after a whole source text was assembled into it, whether
/// assembly fails or not.
pub open spec fn assemble_image(iv: ImageView, src: Seq<u8>) -> ImageView {
    image_from(
        ImageView { m: clear_labels(iv.m), lomem: iv.lomem, cp: 0 },
        src,
        skip_comments(src, 0),
    )
}

proof fn lemma_eol(src: Seq<u8>, p: int)
    requires
        0 <= p <= src.len(),
    ensures
        p <= eol(src, p) <= src.len(),
    decreases src.len() - p,
{
    if p < src.len() && ch_at(src, p) != 10 {
        lemma_eol(src, p + 1);
    }
}

proof fn lemma_skip_lf(src: Seq<u8>, p: int)
    requires
        0 <= p <= src.len(),
    ensures
        p <= skip_lf(src, p) <= src.len(),
    decreases src.len() - p,
{
    if p < src.len() && ch_at(src, p) == 10 {
        lemma_skip_lf(src, p + 1);
    }
}

pub proof fn lemma_skip_comments(src: Seq<u8>, p: int)
    requires
        0 <= p <= src.len(),
    ensures
        p <= skip_comments(src, p) <= src.len(),
    decreases src.len() - p,
{
    if p < src.len() && ch_at(src, p) == 47 {
        lemma_eol(src, p + 1);
        lemma_skip_lf(src, eol(src, p + 1));
        let r = skip_lf(src, eol(src, p + 1));
        lemma_skip_comments(src, r);
    }
}

/// Reading on from a character of the source moves forward and stays
/// within the source.
pub proof fn lemma_rch(src: Seq<u8>, pos: int)
    requires
        0 <= pos <= src.len(),
    ensures
        pos <= rch_spec(src, pos) <= src.len(),
        pos < src.len() ==> pos < rch_spec(src, pos),
{
    if pos < src.len() {
        lemma_skip_comments(src, pos + 1);
    }
}

proof fn lemma_rdn_digits(src: Seq<u8>, pos: int, acc: i16)
    requires
        0 <= pos <= src.len(),
    ensures
        pos <= rdn_digits(src, pos, acc).0 <= src.len(),
        pos < src.len() && is_digit(ch_at(src, pos)) ==> pos < rdn_digits(src, pos, acc).0,
    decreases src.len() - pos,
{
    lemma_rch(src, pos);
    if pos < src.len() && is_digit(ch_at(src, pos)) {
        lemma_rdn_digits(src, rch_spec(src, pos), wrap(acc * 10 + (ch_at(src, pos) - 48)));
    }
}

/// Reading a number moves forward where it starts at a digit, never back,
/// and stays within the source.
pub proof fn lemma_rdn(src: Seq<u8>, pos: int)
    requires
        0 <= pos <= src.len(),
    ensures
        pos <= rdn_spec(src, pos).0 <= src.len(),
        pos < src.len() && is_digit(ch_at(src, pos)) ==> pos < rdn_spec(src, pos).0,
{
    lemma_rch(src, pos);
    if ch_at(src, pos) == 45 {
        lemma_rdn_digits(src, rch_spec(src, pos), 0);
    } else {
        lemma_rdn_digits(src, pos, 0);
    }
}

/// The first position at or after `start` that does not start a comment.
pub fn skip(src: &Vec<u8>, start: usize) -> (r: usize)
    requires
        start <= src.len(),
    ensures
        r == skip_comments(src@, start as int),
        start <= r <= src.len(),
{
    proof {
        lemma_skip_comments(src@, start as int);
    }
    let mut p: usize = start;
    while p < src.len() && char_at(src, p) == 47
        invariant
            start <= p <= src.len(),
            skip_comments(src@, p as int) == skip_comments(src@, start as int),
        decreases src.len() - p,
    {
        let mut q: usize = p + 1;
        while q < src.len() && char_at(src, q) != 10
            invariant
                p < q <= src.len(),
                eol(src@, q as int) == eol(src@, p + 1),
            decreases src.len() - q,
        {
            q += 1;
        }
        let ghost q0 = q as int;
        while q < src.len() && char_at(src, q) == 10
            invariant
                p < q <= src.len(),
                skip_lf(src@, q as int) == skip_lf(src@, q0),
            decreases src.len() - q,
        {
            q += 1;
        }
        p = q;
    }
    p
}

/// Moves to the next character of the source, comments skipped.
pub fn rch(src: &Vec<u8>, pos: usize) -> (r: usize)
    requires
        pos <= src.len(),
    ensures
        r == rch_spec(src@, pos as int),
        pos <= r <= src.len(),
        pos < src.len() ==> pos < r,
{
    if pos >= src.len() {
        pos
    } else {
        skip(src, pos + 1)
    }
}

/// Reads a decimal number at `pos`; gives where it stops and its value.
pub fn rdn(src: &Vec<u8>, pos: usize) -> (r: (usize, i16))
    requires
        pos <= src.len(),
    ensures
        (r.0 as int, r.1) == rdn_spec(src@, pos as int),
        pos <= r.0 <= src.len(),
        pos < src.len() && is_digit(ch_at(src@, pos as int)) ==> pos < r.0,
{
    proof {
        lemma_rdn(src@, pos as int);
    }
    let neg: bool = char_at(src, pos) == 45;
    let mut p: usize = if neg {
        rch(src, pos)
    } else {
        pos
    };
    let ghost c1 = p as int;
    let mut sum: i16 = 0;
    while p < src.len() && char_at(src, p) >= 48 && char_at(src, p) <= 57
        invariant
            p <= src.len(),
            rdn_digits(src@, p as int, sum) == rdn_digits(src@, c1, 0),
        decreases src.len() - p,
    {
        sum = wrap16(sum as i64 * 10 + (char_at(src, p) as i64 - 48));
        p = rch(src, p);
    }
    (
        p,
        if neg {
            wrap16(-(sum as i64))
        } else {
            sum
        },
    )
}

/// The outcome `r` and the image `after` are what `want` says.
pub open spec fn step_agrees(
    after: ImageView,
    r: Result<usize, AsmError>,
    want: Result<(ImageView, int), AsmError>,
) -> bool {
    match want {
        Ok((iv, p)) => r is Ok && r->Ok_0 as int == p && after == iv,
        Err(e) => r == Err::<usize, AsmError>(e),
    }
}

/// The image `after` a directive that failed is the one before it.
pub open spec fn same_on_error(before: ImageView, after: ImageView, r: Result<usize, AsmError>) -> bool {
    r is Err ==> after == before
}

impl Image {
    /// An image of zero words with nothing emitted.
    pub fn new() -> (im: Image)
        ensures
            image_wf(im@),
            im@.lomem == 0,
            im@.cp == 0,
            forall|i: int| 0 <= i < WORDCOUNT ==> im@.m[i] == 0,
    {
        let mut m: Vec<i16> = Vec::new();
        let mut i: usize = 0;
        while i < WORDCOUNT
            invariant
                0 <= i <= WORDCOUNT,
                m@.len() == i,
                forall|j: int| 0 <= j < i ==> m@[j] == 0,
            decreases WORDCOUNT - i,
        {
            m.push(0);
            i += 1;
        }
        Image { m, lomem: 0, cp: 0 }
    }

    /// Emits one word.
    pub fn stw(&mut self, w: i16)
        requires
            image_wf(old(self)@),
            old(self).lomem < LABV,
        ensures
            final(self)@ == emit(old(self)@, w),
            image_wf(final(self)@),
    {
        let at: usize = self.lomem;
        self.m[at] = w;
        self.lomem = at + 1;
        self.cp = 0;
    }

    /// Emits one byte of character data.
    pub fn stc(&mut self, b: u8)
        requires
            image_wf(old(self)@),
            old(self).cp == 0 ==> old(self).lomem < LABV,
        ensures
            image_wf(final(self)@),
            old(self).cp == 0 ==> final(self)@ == (ImageView {
                m: with_byte(emit(old(self)@, 0).m, 2 * old(self).lomem, b as int),
                lomem: old(self).lomem + 1,
                cp: 1,
            }),
            old(self).cp != 0 ==> final(self)@ == (ImageView {
                m: with_byte(old(self).m@, 2 * (old(self).lomem - 1) + 1, b as int),
                lomem: old(self).lomem as int,
                cp: 0,
            }),
    {
        if self.cp == 0 {
            self.stw(0);
            let at: usize = 2 * (self.lomem - 1);
            set_byte(&mut self.m, at, b);
            self.cp = 1;
        } else {
            let at: usize = 2 * (self.lomem - 1) + 1;
            set_byte(&mut self.m, at, b);
            self.cp = 0;
        }
    }

    /// Makes word `a` refer to label `n`.
    pub fn labref(&mut self, n: usize, a: usize)
        requires
            old(self).m.len() == WORDCOUNT,
            n < LABVCOUNT,
            a < WORDCOUNT,
        ensures
            final(self).m@ == labref_spec(old(self).m@, n as int, a as int),
            final(self).lomem == old(self).lomem,
            final(self).cp == old(self).cp,
    {
        let k: i16 = self.m[LABV + n];
        if k < 0 {
            let back: i16 = wrap16(-(k as i64));
            let w: i16 = wrap16(self.m[a] as i64 + back as i64);
            self.m[a] = w;
        } else {
            self.m[LABV + n] = a as i16;
            let w: i16 = wrap16(self.m[a] as i64 + k as i64);
            self.m[a] = w;
        }
    }

    /// Makes every label unseen.
    pub fn clear_labels(&mut self)
        requires
            old(self).m.len() == WORDCOUNT,
        ensures
            final(self).m@ == clear_labels(old(self).m@),
            final(self).lomem == old(self).lomem,
            final(self).cp == old(self).cp,
    {
        let mut i: usize = 0;
        while i < LABVCOUNT
            invariant
                0 <= i <= LABVCOUNT,
                self.m.len() == WORDCOUNT,
                self.lomem == old(self).lomem,
                self.cp == old(self).cp,
                forall|j: int|
                    0 <= j < WORDCOUNT ==> self.m@[j] == (if LABV <= j < LABV + i {
                        0i16
                    } else {
                        old(self).m@[j]
                    }),
            decreases LABVCOUNT - i,
        {
            self.m[LABV + i] = 0;
            i += 1;
        }
        assert(self.m@ =~= clear_labels(old(self).m@));
    }

    fn define(&mut self, src: &Vec<u8>, pos: usize) -> (r: Result<usize, AsmError>)
        requires
            image_wf(old(self)@),
            pos < src.len(),
            is_digit(ch_at(src@, pos as int)),
        ensures
            image_wf(final(self)@),
            step_agrees(final(self)@, r, define_spec(old(self)@, src@, pos as int)),
            r is Err ==> final(self)@ == failed_image(old(self)@, src@, pos as int),
            r is Ok ==> pos < r->Ok_0 <= src.len(),
    {
        let (c1, n) = rdn(src, pos);
        if n < 0 || n >= LABVCOUNT as i16 {
            return Err(AsmError::BadCode(self.lomem as i16));
        }
        let entry: usize = LABV + n as usize;
        let mut k: i16 = self.m[entry];
        if k < 0 {
            return Err(AsmError::DuplicateLabel(n));
        }
        let target: i16 = self.lomem as i16;
        let mut fuel: usize = WORDCOUNT;
        while k > 0
            invariant
                self.m.len() == WORDCOUNT,
                self.lomem == old(self).lomem,
                self.cp == old(self).cp,
                image_wf(old(self)@),
                is_digit(ch_at(src@, pos as int)),
                (c1 as int, n) == rdn_spec(src@, pos as int),
                0 <= n < LABVCOUNT,
                entry == LABV + n,
                old(self).m@[entry as int] >= 0,
                target == self.lomem,
                patch_partial(self.m@, k as int, target, fuel as nat) == patch_partial(
                    old(self).m@,
                    old(self).m@[entry as int] as int,
                    target,
                    WORDCOUNT as nat,
                ),
                patch_chain(self.m@, k as int, target, fuel as nat) == patch_chain(
                    old(self).m@,
                    old(self).m@[entry as int] as int,
                    target,
                    WORDCOUNT as nat,
                ),
            decreases fuel,
        {
            if fuel == 0 || k as usize >= WORDCOUNT {
                return Err(AsmError::BadCode(self.lomem as i16));
            }
            let next: i16 = self.m[k as usize];
            self.m[k as usize] = target;
            k = next;
            fuel -= 1;
        }
        self.m[entry] = -target;
        self.cp = 0;
        Ok(c1)
    }

    fn instruction(&mut self, src: &Vec<u8>, pos: usize, code: u16) -> (r: Result<usize, AsmError>)
        requires
            image_wf(old(self)@),
            pos < src.len(),
            code <= 7,
        ensures
            image_wf(final(self)@),
            step_agrees(final(self)@, r, instr_spec(old(self)@, src@, pos as int, code as int)),
            same_on_error(old(self)@, final(self)@, r),
            r is Ok ==> pos < r->Ok_0 <= src.len(),
    {
        let mut p: usize = rch(src, pos);
        let mut n: u16 = code;
        if char_at(src, p) == 73 {
            n += FI_BIT;
            p = rch(src, p);
        }
        if char_at(src, p) == 80 {
            n += FP_BIT;
            p = rch(src, p);
        }
        if char_at(src, p) == 71 {
            p = rch(src, p);
        }
        if char_at(src, p) == 76 {
            let (c5, lab) = rdn(src, rch(src, p));
            if self.lomem + 2 > LABV || lab < 0 || lab >= LABVCOUNT as i16 {
                return Err(AsmError::BadCode(self.lomem as i16));
            }
            self.stw(to_i16(n + FD_BIT));
            self.stw(0);
            let at: usize = self.lomem - 1;
            self.labref(lab as usize, at);
            Ok(c5)
        } else {
            let (c5, d) = rdn(src, p);
            if 0 <= d && d <= 255 {
                if self.lomem + 1 > LABV {
                    return Err(AsmError::BadCode(self.lomem as i16));
                }
                self.stw(to_i16(n + 256 * (d as u16)));
                Ok(c5)
            } else {
                if self.lomem + 2 > LABV {
                    return Err(AsmError::BadCode(self.lomem as i16));
                }
                self.stw(to_i16(n + FD_BIT));
                self.stw(d);
                Ok(c5)
            }
        }
    }

    fn character(&mut self, src: &Vec<u8>, pos: usize) -> (r: Result<usize, AsmError>)
        requires
            image_wf(old(self)@),
            pos < src.len(),
        ensures
            image_wf(final(self)@),
            step_agrees(final(self)@, r, char_spec(old(self)@, src@, pos as int)),
            same_on_error(old(self)@, final(self)@, r),
            r is Ok ==> pos < r->Ok_0 <= src.len(),
    {
        let (c1, val) = rdn(src, rch(src, pos));
        let b: u8 = (to_u16(val) % 256) as u8;
        if self.cp == 0 && self.lomem + 1 > LABV {
            return Err(AsmError::BadCode(self.lomem as i16));
        }
        self.stc(b);
        Ok(c1)
    }

    fn data(&mut self, src: &Vec<u8>, pos: usize) -> (r: Result<usize, AsmError>)
        requires
            image_wf(old(self)@),
            pos < src.len(),
        ensures
            image_wf(final(self)@),
            step_agrees(final(self)@, r, data_spec(old(self)@, src@, pos as int)),
            same_on_error(old(self)@, final(self)@, r),
            r is Ok ==> pos < r->Ok_0 <= src.len(),
    {
        let c0: usize = rch(src, pos);
        if char_at(src, c0) == 76 {
            let (c2, lab) = rdn(src, rch(src, c0));
            if self.lomem + 1 > LABV || lab < 0 || lab >= LABVCOUNT as i16 {
                return Err(AsmError::BadCode(self.lomem as i16));
            }
            self.stw(0);
            let at: usize = self.lomem - 1;
            self.labref(lab as usize, at);
            Ok(c2)
        } else {
            let (c2, val) = rdn(src, c0);
            if self.lomem + 1 > LABV {
                return Err(AsmError::BadCode(self.lomem as i16));
            }
            self.stw(val);
            Ok(c2)
        }
    }

    fn global(&mut self, src: &Vec<u8>, pos: usize) -> (r: Result<usize, AsmError>)
        requires
            image_wf(old(self)@),
            pos < src.len(),
        ensures
            image_wf(final(self)@),
            step_agrees(final(self)@, r, global_spec(old(self)@, src@, pos as int)),
            same_on_error(old(self)@, final(self)@, r),
            r is Ok ==> pos < r->Ok_0 <= src.len(),
    {
        let (c1, slot) = rdn(src, rch(src, pos));
        if char_at(src, c1) != 76 {
            return Err(AsmError::BadCode(self.lomem as i16));
        }
        let (c3, lab) = rdn(src, rch(src, c1));
        if slot < 0 || slot as usize >= WORDCOUNT || lab < 0 || lab >= LABVCOUNT as i16 {
            return Err(AsmError::BadCode(self.lomem as i16));
        }
        self.m[slot as usize] = 0;
        self.labref(lab as usize, slot as usize);
        Ok(c3)
    }

    /// Ends a unit: fails where a label is referenced and not defined,
    /// and changes nothing then; else makes every label unseen.
    pub fn close_unit(&mut self) -> (r: Result<(), AsmError>)
        requires
            image_wf(old(self)@),
        ensures
            image_wf(final(self)@),
            match close_unit(old(self)@) {
                Ok(iv) => r is Ok && final(self)@ == iv,
                Err(e) => r == Err::<(), AsmError>(e) && final(self)@ == old(self)@,
            },
    {
        let mut n: usize = 0;
        while n < LABVCOUNT && self.m[LABV + n] <= 0
            invariant
                0 <= n <= LABVCOUNT,
                *self == *old(self),
                self.m.len() == WORDCOUNT,
                first_unset(self.m@, n as int) == first_unset(self.m@, 0),
            decreases LABVCOUNT - n,
        {
            n += 1;
        }
        if n < LABVCOUNT {
            return Err(AsmError::UnsetLabel(n as i16));
        }
        self.clear_labels();
        self.cp = 0;
        Ok(())
    }

    fn unit_end(&mut self, src: &Vec<u8>, pos: usize) -> (r: Result<usize, AsmError>)
        requires
            image_wf(old(self)@),
            pos < src.len(),
        ensures
            image_wf(final(self)@),
            step_agrees(final(self)@, r, unit_end_spec(old(self)@, src@, pos as int)),
            same_on_error(old(self)@, final(self)@, r),
            r is Ok ==> pos < r->Ok_0 <= src.len(),
    {
        match self.close_unit() {
            Err(e) => Err(e),
            Ok(_) => Ok(rch(src, pos)),
        }
    }

    /// Carries out the directive whose first character is at `pos`, and
    /// gives the position of the next one.
    pub fn directive(&mut self, src: &Vec<u8>, pos: usize) -> (r: Result<usize, AsmError>)
        requires
            image_wf(old(self)@),
            pos < src.len(),
        ensures
            image_wf(final(self)@),
            step_agrees(final(self)@, r, directive_spec(old(self)@, src@, pos as int)),
            final(self)@ == directive_image(old(self)@, src@, pos as int),
            r is Ok ==> pos < r->Ok_0 <= src.len(),
    {
        let c: i16 = char_at(src, pos);
        if c >= 48 && c <= 57 {
            self.define(src, pos)
        } else if c == 36 || c == 32 || c == 10 {
            Ok(rch(src, pos))
        } else if c == 76 {
            self.instruction(src, pos, F0_L)
        } else if c == 83 {
            self.instruction(src, pos, F1_S)
        } else if c == 65 {
            self.instruction(src, pos, F2_A)
        } else if c == 74 {
            self.instruction(src, pos, F3_J)
        } else if c == 84 {
            self.instruction(src, pos, F4_T)
        } else if c == 70 {
            self.instruction(src, pos, F5_F)
        } else if c == 75 {
            self.instruction(src, pos, F6_K)
        } else if c == 88 {
            self.instruction(src, pos, F7_X)
        } else if c == 67 {
            self.character(src, pos)
        } else if c == 68 {
            self.data(src, pos)
        } else if c == 71 {
            self.global(src, pos)
        } else if c == 90 {
            self.unit_end(src, pos)
        } else {
            Err(AsmError::BadCh(c))
        }
    }

    /// Assembles a whole source text into the image, from `lomem` upward.
    /// The end of the source ends the last unit, as a `Z` does. On an
    /// error the image holds what was assembled before it.
    pub fn assemble(&mut self, src: &Vec<u8>) -> (r: Result<(), AsmError>)
        requires
            image_wf(old(self)@),
        ensures
            image_wf(final(self)@),
            match assemble_spec(old(self)@, src@) {
                Ok(iv) => r is Ok && final(self)@ == iv,
                Err(e) => r == Err::<(), AsmError>(e),
            },
            final(self)@ == assemble_image(old(self)@, src@),
    {
        self.clear_labels();
        self.cp = 0;
        let mut pos: usize = skip(src, 0);
        while pos < src.len()
            invariant
                image_wf(self@),
                pos <= src.len(),
                assemble_from(self@, src@, pos as int) == assemble_spec(old(self)@, src@),
                image_from(self@, src@, pos as int) == assemble_image(old(self)@, src@),
            decreases src.len() - pos,
        {
            match self.directive(src, pos) {
                Err(e) => {
                    return Err(e);
                },
                Ok(p) => {
                    pos = p;
                },
            }
        }
        self.close_unit()
    }
}

/// Every label is unseen: every entry of the table is 0, so none is
/// positive.
pub open spec fn labels_cleared(m: Seq<i16>) -> bool {
    forall|n: int| 0 <= n < LABVCOUNT ==> #[trigger] m[LABV + n] == 0
}

proof fn lemma_patch_chain_len(m: Seq<i16>, k: int, target: i16, fuel: nat)
    requires
        patch_chain(m, k, target, fuel) is Some,
    ensures
        patch_chain(m, k, target, fuel)->Some_0.len() == m.len(),
    decreases fuel,
{
    if k > 0 {
        lemma_patch_chain_len(m.update(k, target), m[k] as int, target, (fuel - 1) as nat);
    }
}

/// A directive that succeeds leaves the image whole and does not move
/// the emit position back.
pub proof fn lemma_directive_keeps_wf(iv: ImageView, src: Seq<u8>, pos: int)
    requires
        image_wf(iv),
        0 <= pos < src.len(),
        directive_spec(iv, src, pos) is Ok,
    ensures
        image_wf(directive_spec(iv, src, pos)->Ok_0.0),
        iv.lomem <= directive_spec(iv, src, pos)->Ok_0.0.lomem,
{
    let c = ch_at(src, pos);
    if is_digit(c) {
        let n = rdn_spec(src, pos).1;
        lemma_patch_chain_len(iv.m, iv.m[LABV + n] as int, iv.lomem as i16, WORDCOUNT as nat);
    }
}

proof fn lemma_from_cleared(iv: ImageView, src: Seq<u8>, pos: int)
    requires
        image_wf(iv),
        0 <= pos,
        assemble_from(iv, src, pos) is Ok,
    ensures
        labels_cleared(assemble_from(iv, src, pos)->Ok_0.m),
        image_wf(assemble_from(iv, src, pos)->Ok_0),
        iv.lomem <= assemble_from(iv, src, pos)->Ok_0.lomem,
    decreases src.len() - pos,
{
    if pos < src.len() {
        lemma_directive_keeps_wf(iv, src, pos);
        let next = directive_spec(iv, src, pos)->Ok_0;
        if pos < next.1 <= src.len() {
            lemma_from_cleared(next.0, src, next.1);
        } else {
            lemma_directive_moves(iv, src, pos);
        }
    }
}

/// A directive that succeeds moves forward within the source.
pub proof fn lemma_directive_moves(iv: ImageView, src: Seq<u8>, pos: int)
    requires
        0 <= pos < src.len(),
        directive_spec(iv, src, pos) is Ok,
    ensures
        pos < directive_spec(iv, src, pos)->Ok_0.1 <= src.len(),
{
    let c = ch_at(src, pos);
    lemma_rch(src, pos);
    lemma_rdn(src, pos);
    let c0 = rch_spec(src, pos);
    lemma_rdn(src, c0);
    lemma_rch(src, c0);
    if fn_code(c) >= 0 {
        let c1 = if ch_at(src, c0) == 73 {
            rch_spec(src, c0)
        } else {
            c0
        };
        lemma_rch(src, c1);
        let c2 = if ch_at(src, c1) == 80 {
            rch_spec(src, c1)
        } else {
            c1
        };
        lemma_rch(src, c2);
        let c3 = if ch_at(src, c2) == 71 {
            rch_spec(src, c2)
        } else {
            c2
        };
        lemma_rch(src, c3);
        lemma_rdn(src, c3);
        lemma_rdn(src, rch_spec(src, c3));
    } else if c == 68 {
        lemma_rdn(src, rch_spec(src, c0));
    } else if c == 71 {
        let c1 = rdn_spec(src, c0).0;
        lemma_rch(src, c1);
        lemma_rdn(src, rch_spec(src, c1));
    }
}

/// After a source was assembled without an error, every entry of the
/// label table is 0: no label is left referenced and not defined, and the
/// table is cleared. The image is whole, and the emit position has not
/// moved back.
pub proof fn lemma_assembled_labels_settled(iv: ImageView, src: Seq<u8>)
    requires
        image_wf(iv),
        assemble_spec(iv, src) is Ok,
    ensures
        labels_cleared(assemble_spec(iv, src)->Ok_0.m),
        image_wf(assemble_spec(iv, src)->Ok_0),
        iv.lomem <= assemble_spec(iv, src)->Ok_0.lomem,
{
    lemma_skip_comments(src, 0);
    let start = ImageView { m: clear_labels(iv.m), lomem: iv.lomem, cp: 0 };
    lemma_from_cleared(start, src, skip_comments(src, 0));
}

/// Assembly fails with an unset label exactly as a unit end does: where
/// the end of the source, or a `Z`, finds a label whose entry is
/// positive, and then names the first such label.
pub proof fn lemma_close_unit(iv: ImageView)
    ensures
        close_unit(iv) is Ok <==> forall|n: int|
            0 <= n < LABVCOUNT ==> #[trigger] iv.m[LABV + n] <= 0,
        close_unit(iv) matches Err(e) ==> e matches AsmError::UnsetLabel(n) && 0 <= n < LABVCOUNT
            && iv.m[LABV + n] > 0 && forall|k: int| 0 <= k < n ==> #[trigger] iv.m[LABV + k] <= 0,
{
    lemma_first_unset(iv.m, 0);
}

pub proof fn lemma_first_unset(m: Seq<i16>, i: int)
    requires
        0 <= i <= LABVCOUNT,
    ensures
        i <= first_unset(m, i) <= LABVCOUNT,
        first_unset(m, i) < LABVCOUNT ==> m[LABV + first_unset(m, i)] > 0,
        forall|n: int| i <= n < first_unset(m, i) ==> #[trigger] m[LABV + n] <= 0,
    decreases LABVCOUNT - i,
{
    if i < LABVCOUNT && m[LABV + i] <= 0 {
        lemma_first_unset(m, i + 1);
    }
}

/// A label definition that succeeds records the emit position: the
/// label's table entry becomes minus that address, and the position
/// itself does not move.
pub proof fn lemma_definition_records_address(iv: ImageView, src: Seq<u8>, pos: int)
    requires
        image_wf(iv),
        define_spec(iv, src, pos) is Ok,
    ensures
        define_spec(iv, src, pos)->Ok_0.0.m[LABV + rdn_spec(src, pos).1] == -iv.lomem,
        define_spec(iv, src, pos)->Ok_0.0.lomem == iv.lomem,
{
    let n = rdn_spec(src, pos).1;
    lemma_patch_chain_len(iv.m, iv.m[LABV + n] as int, iv.lomem as i16, WORDCOUNT as nat);
}

} // verus!
