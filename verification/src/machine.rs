//! The machine: registers, memory image, heap and streams, and what one
//! instruction does to them.
//!
//! The machine does no input or output of its own. What a program writes
//! is collected in `output`, each byte with the stream it went to; what it
//! reads comes from the bytes that the host has handed to a stream. Where
//! the host has to act, a step ends with an event that says so.

use vstd::prelude::*;
use crate::word::{
    word_u, word_of, wrap, quot, rem, to_u16, to_i16, add16, sub16, mul16, neg16, div16,
    rem16, PROGSTART, WORDCOUNT, F0_L, F1_S, F2_A, F3_J, F4_T, F5_F, F6_K, FI_BIT, FP_BIT, FD_BIT, ENDSTREAMCH, K01_START, K03_ABORT, K11_SELECTINPUT,
    K12_SELECTOUTPUT, K13_RDCH, K14_WRCH, K16_INPUT, K17_OUTPUT, K30_STOP, K31_LEVEL,
    K32_LONGJUMP, K40_APTOVEC, K41_FINDOUTPUT, K42_FINDINPUT, K46_ENDREAD, K47_ENDWRITE,
    K60_WRITES, K62_WRITEN, K63_NEWLINE, K64_NEWPAGE, K66_PACKSTRING, K67_UNPACKSTRING,
    K68_WRITED, K70_READN, K71_TERMINATOR, K75_WRITEHEX, K76_WRITEF, K77_WRITEOCT, K85_GETBYTE,
    K86_PUTBYTE, K87_GETVEC, K88_FREEVEC, K90_CHANGECO,
};
use crate::memory::{
    byte_of, with_byte, string_at, string_fits, pack_fits, pack_spec, unpack_fits, unpack_spec,
    get_byte, set_byte, read_string, packstring, unpackstring,
};
use crate::heap::{Heap, HeapView, heap_wf, getvec_spec, freevec_spec};
use crate::format::{
    Number, readn_spec, ch_at, hex_text, oct_text, writed_spec, writen_spec, readn, char_at,
    writehex, writeoct, writed, writen,
};
use crate::writef::{wrch_byte, writef_spec, writef, string_ok};
use crate::assembler::{Image, ImageView, image_wf, AsmError, assemble_spec, assemble_image};

verus! {

/// What a slot of the stream table holds.
#[derive(Clone, Copy, PartialEq, Eq, Debug)]
pub enum StreamKind {
    /// Nothing: never opened, or closed again.
    Closed,
    /// A stream to read from.
    Input,
    /// A stream to write to.
    Output,
}

/// The content of a stream as mathematical values.
pub struct StreamView {
    pub kind: StreamKind,
    /// The bytes that the host has handed over so far.
    pub data: Seq<u8>,
    /// How many of them were read.
    pub pos: int,
    /// The host may hand over more.
    pub live: bool,
}

/// Why the machine stopped for good.
#[derive(Clone, Copy, PartialEq, Eq, Debug)]
pub enum Fault {
    /// The program counter left the image.
    BadPc(u16),
    /// A store outside the image.
    BadStore(u16),
    /// A frame whose base is past the end of the image.
    BadFrame(u16),
    /// A system call that does not exist.
    UnknownCall(i16),
    /// An extended operation that does not exist.
    UnknownExec(u16),
    /// A coroutine whose saved stack pointer is no valid word index.
    BadChangecoSp(u16),
    /// A coroutine whose saved program counter is no valid word index.
    BadChangecoPc(u16),
    /// A coroutine control block outside the image.
    BadChangecoC,
    /// A current-coroutine slot, or the block it names, outside the image.
    BadCurrco,
    /// A load outside the image.
    BadLoad(i16),
    /// An operand, argument or string outside the image.
    BadAddress,
}

/// How a step ended.
#[derive(Clone, Copy, PartialEq, Eq, Debug)]
pub enum Event {
    /// The instruction was carried out; the machine can go on.
    Running,
    /// The program ended with this result.
    Halt(i16),
    /// The program failed.
    Fatal(Fault),
    /// The current input has no byte left and its host may have more; the
    /// instruction was not carried out.
    NeedInput,
    /// The program asks for the file named by the packed string at this
    /// word, to read; register `a` holds 0 until the host attaches it.
    FindInput(usize),
    /// The same, to write.
    FindOutput(usize),
    /// The program closed this input stream.
    EndRead(usize),
    /// The program closed this output stream.
    EndWrite(usize),
}

/// The machine as mathematical values.
pub struct State {
    pub m: Seq<i16>,
    pub lomem: int,
    pub cp: int,
    pub heap: HeapView,
    pub cis: int,
    pub cos: int,
    pub sysin: int,
    pub sysprint: int,
    pub streams: Seq<StreamView>,
    pub output: Seq<(usize, u8)>,
    pub pc: u16,
    pub sp: u16,
    pub a: i16,
    pub b: i16,
}

/// The image is whole, the heap is sound, and every stream's read
/// position lies within its data.
pub open spec fn state_wf(s: State) -> bool {
    &&& image_wf(ImageView { m: s.m, lomem: s.lomem, cp: s.cp })
    &&& heap_wf(s.heap)
    &&& s.streams.len() < 0x8000
    &&& forall|i: int| 0 <= i < s.streams.len() ==> 0 <= (#[trigger] s.streams[i]).pos <= s.streams[i].data.len()
    &&& 0 <= s.cis < 0x10000
    &&& 0 <= s.cos < 0x10000
    &&& 0 <= s.sysin < 0x10000
    &&& 0 <= s.sysprint < 0x10000
}

/// The instruction ends well with the program counter at `pc`.
pub open spec fn done(s: State, pc: u16) -> (State, Event) {
    (State { pc: pc, ..s }, Event::Running)
}

/// The instruction fails.
pub open spec fn fatal(s: State, f: Fault) -> (State, Event) {
    (s, Event::Fatal(f))
}

/// Words `v .. v + n` lie inside the image.
pub open spec fn has_args(s: State, v: int, n: int) -> bool {
    0 <= v && v + n <= s.m.len()
}

/// The current input is an open input stream.
pub open spec fn can_read(s: State) -> bool {
    s.cis < s.streams.len() && s.streams[s.cis].kind == StreamKind::Input
}

/// The current output is an open output stream.
pub open spec fn can_write(s: State) -> bool {
    s.cos < s.streams.len() && s.streams[s.cos].kind == StreamKind::Output
}

/// The machine after `text` was written to the current output; nothing
/// is written where that is no open output stream.
pub open spec fn emit_bytes(s: State, text: Seq<u8>) -> State {
    if can_write(s) {
        State { output: s.output + Seq::new(text.len(), |i: int| (s.cos as usize, text[i])), ..s }
    } else {
        s
    }
}

/// The machine with the read position of the current input at `pos`.
pub open spec fn with_pos(s: State, pos: int) -> State {
    State { streams: s.streams.update(s.cis, StreamView { pos: pos, ..s.streams[s.cis] }), ..s }
}

/// The machine with stream `h` closed.
pub open spec fn with_closed(s: State, h: int) -> State {
    State {
        streams: s.streams.update(h, StreamView { kind: StreamKind::Closed, ..s.streams[h] }),
        ..s
    }
}

/// The machine with words `start .. start + n` of the image cleared.
pub open spec fn zeroed(m: Seq<i16>, start: int, n: int) -> Seq<i16> {
    Seq::new(
        m.len(),
        |i: int|
            if start <= i < start + n {
                0i16
            } else {
                m[i]
            },
    )
}

/// `name` spells `upper`, a text in upper case, in either case.
pub open spec fn is_name(name: Seq<u8>, upper: Seq<u8>) -> bool {
    &&& name.len() == upper.len()
    &&& forall|i: int|
        0 <= i < name.len() ==> #[trigger] name[i] == upper[i] || name[i] == upper[i] + 32
}

/// `SYSIN`
pub open spec fn sysin_name() -> Seq<u8> {
    seq![83u8, 89u8, 83u8, 73u8, 78u8]
}

/// `SYSPRINT`
pub open spec fn sysprint_name() -> Seq<u8> {
    seq![83u8, 89u8, 83u8, 80u8, 82u8, 73u8, 78u8, 84u8]
}

/// Reading one character: the next byte of the current input, a carriage
/// return as a line feed; -1 at its end or where there is no such stream;
/// `NeedInput` where the bytes are used up and the host may have more.
pub open spec fn rdch_spec(s: State, pc: u16) -> (State, Event) {
    if !can_read(s) {
        done(State { a: ENDSTREAMCH, ..s }, pc)
    } else if s.streams[s.cis].pos < s.streams[s.cis].data.len() {
        done(
            State {
                a: ch_at(s.streams[s.cis].data, s.streams[s.cis].pos),
                ..with_pos(s, s.streams[s.cis].pos + 1)
            },
            pc,
        )
    } else if s.streams[s.cis].live {
        (s, Event::NeedInput)
    } else {
        done(State { a: ENDSTREAMCH, ..s }, pc)
    }
}

/// Reading a number from the current input: the number goes to `a`, the
/// character that ended it to the terminator word. Where there is no such
/// stream the input counts as empty. `NeedInput` where the bytes are used
/// up before the number has ended and the host may have more.
pub open spec fn readn_call_spec(s: State, pc: u16) -> (State, Event) {
    if !can_read(s) {
        done(State { a: 0, m: s.m.update(K71_TERMINATOR as int, ENDSTREAMCH), ..s }, pc)
    } else {
        let n = readn_spec(s.streams[s.cis].data, s.streams[s.cis].pos);
        if n.ran_out && s.streams[s.cis].live {
            (s, Event::NeedInput)
        } else {
            done(
                State {
                    a: n.value,
                    m: s.m.update(K71_TERMINATOR as int, n.term),
                    ..with_pos(s, n.next as int)
                },
                pc,
            )
        }
    }
}

/// Opening a stream by name: the two reserved names give the default
/// streams at once; for any other name the host is asked, and `a` is 0
/// until it answers.
pub open spec fn find_spec(s: State, v: int, pc: u16, output: bool) -> (State, Event) {
    if !has_args(s, v, 1) || !string_fits(s.m, word_u(s.m[v])) {
        fatal(s, Fault::BadAddress)
    } else {
        let name = string_at(s.m, word_u(s.m[v]));
        if is_name(name, sysin_name()) {
            done(State { a: word_of(s.sysin), ..s }, pc)
        } else if is_name(name, sysprint_name()) {
            done(State { a: word_of(s.sysprint), ..s }, pc)
        } else {
            (
                State { a: 0, pc: pc, ..s },
                if output {
                    Event::FindOutput(word_u(s.m[v]) as usize)
                } else {
                    Event::FindInput(word_u(s.m[v]) as usize)
                },
            )
        }
    }
}

/// Closing the current input: nothing happens where it is the default or
/// no slot of the table; else the slot is emptied and the default is
/// current again.
pub open spec fn endread_spec(s: State, pc: u16) -> (State, Event) {
    if s.cis != s.sysin && s.cis < s.streams.len() {
        (State { cis: s.sysin, pc: pc, ..with_closed(s, s.cis) }, Event::EndRead(s.cis as usize))
    } else {
        done(s, pc)
    }
}

/// Closing the current output, in the same way.
pub open spec fn endwrite_spec(s: State, pc: u16) -> (State, Event) {
    if s.cos != s.sysprint && s.cos < s.streams.len() {
        (State { cos: s.sysprint, pc: pc, ..with_closed(s, s.cos) }, Event::EndWrite(s.cos as usize))
    } else {
        done(s, pc)
    }
}

/// Entering a procedure on a fresh frame above `argc` words: the new
/// frame holds the caller's stack pointer, the return address, the
/// caller's frame base `d_addr` and `argc`.
pub open spec fn aptovec_spec(s: State, d_addr: int, pc: u16) -> (State, Event) {
    let v = d_addr + 2;
    if !has_args(s, v, 2) {
        fatal(s, Fault::BadAddress)
    } else {
        let base = (d_addr + word_u(s.m[v + 1]) + 1) % 0x10000;
        if base + 3 >= s.m.len() {
            fatal(s, Fault::BadAddress)
        } else {
            let m1 = s.m.update(base, word_of(s.sp as int)).update(
                base + 1,
                word_of(pc as int),
            ).update(base + 2, word_of(d_addr));
            let m2 = m1.update(base + 3, m1[v + 1]);
            (
                State { m: m2, sp: base as u16, pc: word_u(m2[v]) as u16, ..s },
                Event::Running,
            )
        }
    }
}

/// What a coroutine switch does to memory and registers.
pub struct Switch {
    pub m: Seq<i16>,
    pub sp: u16,
    pub pc: u16,
    pub a: i16,
}

/// The switch to the coroutine whose control block is at `c`, with
/// argument `arg`, where word `g` names the current coroutine: the
/// caller's `sp` and `pc` are saved in the current block, if there is
/// one; `g` is made to name `c`; `sp` and `pc` are taken from `c`, and
/// `a` becomes `arg`. Both must then lie in `PROGSTART .. WORDCOUNT`.
pub open spec fn changeco_spec(m: Seq<i16>, sp: u16, pc: u16, arg: i16, c: int, g: int) -> Result<
    Switch,
    Fault,
> {
    if c == 0 || c + 1 >= m.len() {
        Err(Fault::BadChangecoC)
    } else if g >= m.len() {
        Err(Fault::BadCurrco)
    } else {
        let cur = word_u(m[g]);
        if cur != 0 && cur + 1 >= m.len() {
            Err(Fault::BadCurrco)
        } else {
            let m1 = if cur != 0 {
                m.update(cur, word_of(sp as int)).update(cur + 1, word_of(pc as int))
            } else {
                m
            };
            let m2 = m1.update(g, word_of(c));
            let nsp = word_u(m2[c]);
            let npc = word_u(m2[c + 1]);
            if nsp < PROGSTART || nsp >= WORDCOUNT {
                Err(Fault::BadChangecoSp(nsp as u16))
            } else if npc < PROGSTART || npc >= WORDCOUNT {
                Err(Fault::BadChangecoPc(npc as u16))
            } else {
                Ok(Switch { m: m2, sp: nsp as u16, pc: npc as u16, a: arg })
            }
        }
    }
}

/// The coroutine switch as a system call with its three arguments at `v`.
pub open spec fn changeco_call_spec(s: State, v: int, pc: u16) -> (State, Event) {
    if !has_args(s, v, 3) {
        fatal(s, Fault::BadAddress)
    } else {
        match changeco_spec(s.m, s.sp, pc, s.m[v], word_u(s.m[v + 1]), word_u(s.m[v + 2])) {
            Err(f) => fatal(s, f),
            Ok(w) => (State { m: w.m, sp: w.sp, pc: w.pc, a: w.a, ..s }, Event::Running),
        }
    }
}

/// A block of the heap is asked for: the heap's answer goes to `a`, and
/// the block that was handed out is cleared.
pub open spec fn getvec_call_spec(s: State, v: int, pc: u16) -> (State, Event) {
    if !has_args(s, v, 1) {
        fatal(s, Fault::BadAddress)
    } else {
        let n = word_u(s.m[v]);
        let (h, r) = getvec_spec(s.heap, n, s.sp as int);
        done(
            State {
                heap: h,
                a: word_of(r),
                m: if r != 0 {
                    zeroed(s.m, r, n)
                } else {
                    s.m
                },
                ..s
            },
            pc,
        )
    }
}

/// The system calls that write text.
pub open spec fn write_call_spec(s: State, k: i16, v: int, pc: u16) -> (State, Event) {
    if k == K63_NEWLINE {
        done(emit_bytes(s, seq![10u8]), pc)
    } else if k == K64_NEWPAGE {
        done(emit_bytes(s, seq![12u8]), pc)
    } else if k == K76_WRITEF {
        match writef_spec(s.m, v) {
            None => fatal(s, Fault::BadAddress),
            Some(t) => done(emit_bytes(s, t), pc),
        }
    } else if k == K60_WRITES {
        if !has_args(s, v, 1) || !string_fits(s.m, word_u(s.m[v])) {
            fatal(s, Fault::BadAddress)
        } else {
            done(emit_bytes(s, string_at(s.m, word_u(s.m[v]))), pc)
        }
    } else if k == K14_WRCH || k == K62_WRITEN {
        if !has_args(s, v, 1) {
            fatal(s, Fault::BadAddress)
        } else if k == K14_WRCH {
            done(emit_bytes(s, seq![wrch_byte(s.m[v])]), pc)
        } else {
            done(emit_bytes(s, writen_spec(s.m[v] as int)), pc)
        }
    } else if !has_args(s, v, 2) {
        fatal(s, Fault::BadAddress)
    } else if k == K68_WRITED {
        done(emit_bytes(s, writed_spec(s.m[v] as int, s.m[v + 1] as int)), pc)
    } else if k == K75_WRITEHEX {
        done(emit_bytes(s, hex_text(word_u(s.m[v]) as nat, s.m[v + 1] as int)), pc)
    } else {
        done(emit_bytes(s, oct_text(word_u(s.m[v]) as nat, s.m[v + 1] as int)), pc)
    }
}

/// `k` is a system call that writes text.
pub open spec fn is_write_call(k: i16) -> bool {
    k == K14_WRCH || k == K60_WRITES || k == K62_WRITEN || k == K63_NEWLINE || k == K64_NEWPAGE
        || k == K68_WRITED || k == K75_WRITEHEX || k == K76_WRITEF || k == K77_WRITEOCT
}

/// The system calls on strings and bytes of the image.
pub open spec fn byte_call_spec(s: State, k: i16, v: int, pc: u16) -> (State, Event) {
    if k == K66_PACKSTRING {
        if !has_args(s, v, 2) || !pack_fits(s.m, word_u(s.m[v]), word_u(s.m[v + 1])) {
            fatal(s, Fault::BadAddress)
        } else {
            done(
                State {
                    m: pack_spec(s.m, word_u(s.m[v]), word_u(s.m[v + 1])),
                    a: (s.m[word_u(s.m[v])] / 2) as i16,
                    ..s
                },
                pc,
            )
        }
    } else if k == K67_UNPACKSTRING {
        if !has_args(s, v, 2) || !unpack_fits(s.m, word_u(s.m[v]), word_u(s.m[v + 1])) {
            fatal(s, Fault::BadAddress)
        } else {
            done(State { m: unpack_spec(s.m, word_u(s.m[v]), word_u(s.m[v + 1])), ..s }, pc)
        }
    } else if k == K85_GETBYTE {
        if !has_args(s, v, 2) || (2 * word_u(s.m[v]) + word_u(s.m[v + 1])) / 2 >= s.m.len() {
            fatal(s, Fault::BadAddress)
        } else {
            done(
                State { a: byte_of(s.m, 2 * word_u(s.m[v]) + word_u(s.m[v + 1])) as i16, ..s },
                pc,
            )
        }
    } else {
        if !has_args(s, v, 3) || (2 * word_u(s.m[v]) + word_u(s.m[v + 1])) / 2 >= s.m.len() {
            fatal(s, Fault::BadAddress)
        } else {
            done(
                State {
                    m: with_byte(
                        s.m,
                        2 * word_u(s.m[v]) + word_u(s.m[v + 1]),
                        word_u(s.m[v + 2]) % 256,
                    ),
                    ..s
                },
                pc,
            )
        }
    }
}

/// `k` is a system call on strings or bytes of the image.
pub open spec fn is_byte_call(k: i16) -> bool {
    k == K66_PACKSTRING || k == K67_UNPACKSTRING || k == K85_GETBYTE || k == K86_PUTBYTE
}

/// The system call `s.a`, with its arguments in the words from
/// `d_addr + 2` on; `pc` is the address of the next instruction.
pub open spec fn kcall_spec(s: State, d_addr: int, pc: u16) -> (State, Event) {
    let v = d_addr + 2;
    let k = s.a;
    if k == K01_START || k == K03_ABORT {
        done(s, pc)
    } else if k == K11_SELECTINPUT || k == K12_SELECTOUTPUT || k == K30_STOP {
        if !has_args(s, v, 1) {
            fatal(s, Fault::BadAddress)
        } else if k == K11_SELECTINPUT {
            done(State { cis: word_u(s.m[v]), ..s }, pc)
        } else if k == K12_SELECTOUTPUT {
            done(State { cos: word_u(s.m[v]), ..s }, pc)
        } else {
            (State { pc: pc, ..s }, Event::Halt(s.m[v]))
        }
    } else if k == K13_RDCH {
        rdch_spec(s, pc)
    } else if k == K16_INPUT {
        done(State { a: word_of(s.cis), ..s }, pc)
    } else if k == K17_OUTPUT {
        done(State { a: word_of(s.cos), ..s }, pc)
    } else if k == K31_LEVEL {
        done(State { a: word_of(s.sp as int), ..s }, pc)
    } else if k == K32_LONGJUMP {
        if !has_args(s, v, 2) {
            fatal(s, Fault::BadAddress)
        } else {
            (
                State { sp: word_u(s.m[v]) as u16, pc: word_u(s.m[v + 1]) as u16, ..s },
                Event::Running,
            )
        }
    } else if k == K40_APTOVEC {
        aptovec_spec(s, d_addr, pc)
    } else if k == K41_FINDOUTPUT {
        find_spec(s, v, pc, true)
    } else if k == K42_FINDINPUT {
        find_spec(s, v, pc, false)
    } else if k == K46_ENDREAD {
        endread_spec(s, pc)
    } else if k == K47_ENDWRITE {
        endwrite_spec(s, pc)
    } else if is_write_call(k) {
        write_call_spec(s, k, v, pc)
    } else if is_byte_call(k) {
        byte_call_spec(s, k, v, pc)
    } else if k == K70_READN {
        readn_call_spec(s, pc)
    } else if k == K87_GETVEC {
        getvec_call_spec(s, v, pc)
    } else if k == K88_FREEVEC {
        if !has_args(s, v, 1) {
            fatal(s, Fault::BadAddress)
        } else {
            let (h, r) = freevec_spec(s.heap, word_u(s.m[v]));
            done(State { heap: h, a: r as i16, ..s }, pc)
        }
    } else if k == K90_CHANGECO {
        changeco_call_spec(s, v, pc)
    } else {
        fatal(s, Fault::UnknownCall(k))
    }
}

/// -1 for true, 0 for false.
pub open spec fn truth(t: bool) -> i16 {
    if t {
        -1i16
    } else {
        0i16
    }
}

/// The switch operation: the words at `pc` hold a count and a default
/// target, then that many pairs of key and target; the target of the
/// first key at or after pair `i` that equals `a` is chosen, else the
/// default. `None` where the table leaves the image.
pub open spec fn switch_target(m: Seq<i16>, a: i16, at: int, count: int) -> Option<int>
    decreases count,
{
    if count <= 0 {
        Some(-1)
    } else if at + 1 >= m.len() {
        None
    } else if m[at] == a {
        Some(word_u(m[at + 1]))
    } else {
        switch_target(m, a, at + 2, count - 1)
    }
}

/// The extended operation `d`.
pub open spec fn xcode_spec(s: State, d: int, pc: u16) -> (State, Event) {
    let a = s.a;
    let b = s.b;
    let k = word_u(a) % 16;
    if d == 1 {
        if word_u(a) >= s.m.len() {
            fatal(s, Fault::BadLoad(a))
        } else {
            done(State { a: s.m[word_u(a)], ..s }, pc)
        }
    } else if d == 2 {
        done(State { a: wrap(-a), ..s }, pc)
    } else if d == 3 {
        done(State { a: !a, ..s }, pc)
    } else if d == 4 {
        if s.sp + 1 >= s.m.len() {
            fatal(s, Fault::BadAddress)
        } else {
            (
                State { pc: word_u(s.m[s.sp + 1]) as u16, sp: word_u(s.m[s.sp as int]) as u16, ..s },
                Event::Running,
            )
        }
    } else if d == 5 {
        done(State { a: wrap(a * b), ..s }, pc)
    } else if d == 6 {
        done(
            State {
                a: if a != 0 {
                    wrap(quot(b as int, a as int))
                } else {
                    a
                },
                ..s
            },
            pc,
        )
    } else if d == 7 {
        done(
            State {
                a: if a != 0 {
                    wrap(rem(b as int, a as int))
                } else {
                    a
                },
                ..s
            },
            pc,
        )
    } else if d == 8 {
        done(State { a: wrap(b + a), ..s }, pc)
    } else if d == 9 {
        done(State { a: wrap(b - a), ..s }, pc)
    } else if d == 10 {
        done(State { a: truth(b == a), ..s }, pc)
    } else if d == 11 {
        done(State { a: truth(b != a), ..s }, pc)
    } else if d == 12 {
        done(State { a: truth(b < a), ..s }, pc)
    } else if d == 13 {
        done(State { a: truth(b >= a), ..s }, pc)
    } else if d == 14 {
        done(State { a: truth(b > a), ..s }, pc)
    } else if d == 15 {
        done(State { a: truth(b <= a), ..s }, pc)
    } else if d == 16 {
        done(State { a: word_of(((word_u(b) as u16) << (k as u16)) as int), ..s }, pc)
    } else if d == 17 {
        done(State { a: word_of(((word_u(b) as u16) >> (k as u16)) as int), ..s }, pc)
    } else if d == 18 {
        done(State { a: b & a, ..s }, pc)
    } else if d == 19 {
        done(State { a: b | a, ..s }, pc)
    } else if d == 20 {
        done(State { a: b ^ a, ..s }, pc)
    } else if d == 21 {
        done(State { a: b ^ !a, ..s }, pc)
    } else if d == 22 {
        (State { pc: pc, ..s }, Event::Halt(0))
    } else if d == 23 {
        if pc + 1 >= s.m.len() {
            fatal(s, Fault::BadAddress)
        } else {
            match switch_target(s.m, a, pc + 2, s.m[pc as int] as int) {
                None => fatal(s, Fault::BadAddress),
                Some(t) => if t < 0 {
                    done(s, word_u(s.m[pc + 1]) as u16)
                } else {
                    done(s, t as u16)
                },
            }
        }
    } else {
        fatal(s, Fault::UnknownExec(d as u16))
    }
}

/// An instruction as fetched: its first word, its operand after the
/// modifiers were applied, and the address of the next instruction.
pub struct Decoded {
    pub w: int,
    pub d: int,
    pub pc: u16,
}

/// Fetches the instruction at `s.pc`. The operand is the high byte of the
/// first word, or the whole next word where the long-form bit is set;
/// the stack pointer is added to it, modulo 65536, where the base bit is
/// set; then it is replaced by the word it addresses where the indirect
/// bit is set.
pub open spec fn decode_spec(s: State) -> Result<Decoded, Fault> {
    if s.pc >= s.m.len() {
        Err(Fault::BadPc(s.pc))
    } else {
        let w = word_u(s.m[s.pc as int]);
        let long = (w / (FD_BIT as int)) % 2 == 1;
        if long && s.pc + 1 >= s.m.len() {
            Err(Fault::BadPc((s.pc + 1) as u16))
        } else {
            let d0 = if long {
                word_u(s.m[s.pc + 1])
            } else {
                w / 256
            };
            let pc = if long {
                s.pc + 2
            } else {
                s.pc + 1
            };
            let d1 = if (w / (FP_BIT as int)) % 2 == 1 {
                (d0 + s.sp) % 0x10000
            } else {
                d0
            };
            if (w / (FI_BIT as int)) % 2 == 1 {
                if d1 >= s.m.len() {
                    Err(Fault::BadAddress)
                } else {
                    Ok(Decoded { w: w, d: word_u(s.m[d1]), pc: pc as u16 })
                }
            } else {
                Ok(Decoded { w: w, d: d1, pc: pc as u16 })
            }
        }
    }
}

/// What the instruction with function code `code` and operand `d` does.
pub open spec fn execute_spec(s: State, code: int, d: int, pc: u16) -> (State, Event) {
    if code == F0_L {
        done(State { b: s.a, a: word_of(d), ..s }, pc)
    } else if code == F1_S {
        if d >= s.m.len() {
            fatal(s, Fault::BadStore(d as u16))
        } else {
            done(State { m: s.m.update(d, s.a), ..s }, pc)
        }
    } else if code == F2_A {
        done(State { a: wrap(s.a + word_of(d)), ..s }, pc)
    } else if code == F3_J {
        done(s, d as u16)
    } else if code == F4_T {
        if s.a != 0 {
            done(s, d as u16)
        } else {
            done(s, pc)
        }
    } else if code == F5_F {
        if s.a == 0 {
            done(s, d as u16)
        } else {
            done(s, pc)
        }
    } else if code == F6_K {
        let d_addr = (d + s.sp) % 0x10000;
        if s.a < PROGSTART {
            kcall_spec(s, d_addr, pc)
        } else if d_addr + 1 >= s.m.len() {
            fatal(s, Fault::BadFrame(d_addr as u16))
        } else {
            (
                State {
                    m: s.m.update(d_addr, word_of(s.sp as int)).update(d_addr + 1, word_of(pc as int)),
                    sp: d_addr as u16,
                    pc: s.a as u16,
                    ..s
                },
                Event::Running,
            )
        }
    } else {
        xcode_spec(s, d, pc)
    }
}

/// One step of the machine: fetch, decode, execute.
pub open spec fn step_spec(s: State) -> (State, Event) {
    match decode_spec(s) {
        Err(f) => fatal(s, f),
        Ok(i) => execute_spec(s, i.w % 8, i.d, i.pc),
    }
}

/// Up to `fuel` steps, for as long as the machine can go on.
pub open spec fn run_spec(s: State, fuel: nat) -> (State, Event)
    decreases fuel,
{
    if fuel == 0 {
        (s, Event::Running)
    } else {
        let (after, e) = step_spec(s);
        if e == Event::Running {
            run_spec(after, (fuel - 1) as nat)
        } else {
            (after, e)
        }
    }
}

/// A slot of the stream table.
pub struct Stream {
    pub kind: StreamKind,
    /// The bytes that the host has handed over so far.
    pub data: Vec<u8>,
    /// How many of them were read.
    pub pos: usize,
    /// The host may hand over more.
    pub live: bool,
}

impl View for Stream {
    type V = StreamView;

    open spec fn view(&self) -> StreamView {
        StreamView { kind: self.kind, data: self.data@, pos: self.pos as int, live: self.live }
    }
}

/// The machine.
pub struct BcplState {
    pub image: Image,
    pub heap: Heap,
    /// The current input stream.
    pub cis: usize,
    /// The current output stream.
    pub cos: usize,
    /// The default input stream.
    pub sysin: usize,
    /// The default output stream.
    pub sysprint: usize,
    pub streams: Vec<Stream>,
    /// What was written and not yet taken by the host: stream and byte.
    pub output: Vec<(usize, u8)>,
    pub pc: u16,
    pub sp: u16,
    pub a: i16,
    pub b: i16,
}

/// The stream table as mathematical values.
pub open spec fn streams_view(v: Seq<Stream>) -> Seq<StreamView> {
    Seq::new(v.len(), |i: int| v[i]@)
}

impl View for BcplState {
    type V = State;

    open spec fn view(&self) -> State {
        State {
            m: self.image.m@,
            lomem: self.image.lomem as int,
            cp: self.image.cp as int,
            heap: self.heap@,
            cis: self.cis as int,
            cos: self.cos as int,
            sysin: self.sysin as int,
            sysprint: self.sysprint as int,
            streams: streams_view(self.streams@),
            output: self.output@,
            pc: self.pc,
            sp: self.sp,
            a: self.a,
            b: self.b,
        }
    }
}

/// Tells whether `name` spells `upper` in either case.
fn matches_name(name: &Vec<u8>, upper: &Vec<u8>) -> (r: bool)
    requires
        forall|i: int| 0 <= i < upper.len() ==> upper[i] <= 200,
    ensures
        r == is_name(name@, upper@),
{
    if name.len() != upper.len() {
        return false;
    }
    let mut i: usize = 0;
    while i < name.len()
        invariant
            0 <= i <= name.len(),
            name.len() == upper.len(),
            forall|j: int| 0 <= j < upper.len() ==> upper[j] <= 200,
            forall|j: int|
                0 <= j < i ==> #[trigger] name@[j] == upper@[j] || name@[j] == upper@[j] + 32,
        decreases name.len() - i,
    {
        if !(name[i] == upper[i] || name[i] == upper[i] + 32) {
            return false;
        }
        i += 1;
    }
    true
}

impl BcplState {
    fn can_read_now(&self) -> (r: bool)
        ensures
            r == can_read(self@),
    {
        if self.cis < self.streams.len() {
            match self.streams[self.cis].kind {
                StreamKind::Input => true,
                _ => false,
            }
        } else {
            false
        }
    }

    fn can_write_now(&self) -> (r: bool)
        ensures
            r == can_write(self@),
    {
        if self.cos < self.streams.len() {
            match self.streams[self.cos].kind {
                StreamKind::Output => true,
                _ => false,
            }
        } else {
            false
        }
    }

    /// Writes `text` to the current output.
    fn emit(&mut self, text: &Vec<u8>)
        ensures
            final(self)@ == emit_bytes(old(self)@, text@),
    {
        if self.can_write_now() {
            let cos: usize = self.cos;
            let mut i: usize = 0;
            while i < text.len()
                invariant
                    0 <= i <= text.len(),
                    cos == old(self).cos,
                    self@ == (State {
                        output: old(self).output@ + Seq::new(
                            i as nat,
                            |j: int| (cos, text@[j]),
                        ),
                        ..old(self)@
                    }),
                decreases text.len() - i,
            {
                self.output.push((cos, text[i]));
                i += 1;
                assert(self.output@ =~= old(self).output@ + Seq::new(
                    i as nat,
                    |j: int| (cos, text@[j]),
                ));
            }
            assert(self.output@ =~= emit_bytes(old(self)@, text@).output);
        }
    }

    fn set_pos(&mut self, pos: usize)
        requires
            can_read(old(self)@),
        ensures
            final(self)@ == with_pos(old(self)@, pos as int),
    {
        let h: usize = self.cis;
        self.streams[h].pos = pos;
        assert(streams_view(self.streams@) =~= with_pos(old(self)@, pos as int).streams);
    }

    fn close(&mut self, h: usize)
        requires
            h < old(self).streams.len(),
        ensures
            final(self)@ == with_closed(old(self)@, h as int),
    {
        self.streams[h].kind = StreamKind::Closed;
        assert(streams_view(self.streams@) =~= with_closed(old(self)@, h as int).streams);
    }

    fn rdch(&mut self, pc: u16) -> (e: Event)
        requires
            state_wf(old(self)@),
        ensures
            (final(self)@, e) == rdch_spec(old(self)@, pc),
            state_wf(final(self)@),
    {
        if !self.can_read_now() {
            self.a = ENDSTREAMCH;
            self.pc = pc;
            return Event::Running;
        }
        let h: usize = self.cis;
        let pos: usize = self.streams[h].pos;
        assert(self@.streams[h as int].pos == pos);
        if pos < self.streams[h].data.len() {
            let c: i16 = char_at(&self.streams[h].data, pos);
            self.set_pos(pos + 1);
            self.a = c;
            self.pc = pc;
            Event::Running
        } else if self.streams[h].live {
            Event::NeedInput
        } else {
            self.a = ENDSTREAMCH;
            self.pc = pc;
            Event::Running
        }
    }

    fn readn_call(&mut self, pc: u16) -> (e: Event)
        requires
            state_wf(old(self)@),
        ensures
            (final(self)@, e) == readn_call_spec(old(self)@, pc),
            state_wf(final(self)@),
    {
        if !self.can_read_now() {
            self.a = 0;
            self.image.m[K71_TERMINATOR] = ENDSTREAMCH;
            self.pc = pc;
            return Event::Running;
        }
        let h: usize = self.cis;
        assert(self@.streams[h as int].pos == self.streams[h as int].pos);
        let n: Number = readn(&self.streams[h].data, self.streams[h].pos);
        if n.ran_out && self.streams[h].live {
            return Event::NeedInput;
        }
        self.set_pos(n.next);
        self.a = n.value;
        self.image.m[K71_TERMINATOR] = n.term;
        self.pc = pc;
        Event::Running
    }

    fn find(&mut self, v: usize, pc: u16, output: bool) -> (e: Event)
        requires
            state_wf(old(self)@),
            v <= 0x10001,
        ensures
            (final(self)@, e) == find_spec(old(self)@, v as int, pc, output),
            state_wf(final(self)@),
    {
        if v >= WORDCOUNT {
            return Event::Fatal(Fault::BadAddress);
        }
        let p: usize = to_u16(self.image.m[v]) as usize;
        if !string_ok(&self.image.m, p) {
            return Event::Fatal(Fault::BadAddress);
        }
        let name: Vec<u8> = read_string(&self.image.m, p);
        let sysin: Vec<u8> = vec![83u8, 89u8, 83u8, 73u8, 78u8];
        let sysprint: Vec<u8> = vec![83u8, 89u8, 83u8, 80u8, 82u8, 73u8, 78u8, 84u8];
        assert(sysin@ =~= sysin_name());
        assert(sysprint@ =~= sysprint_name());
        self.pc = pc;
        if matches_name(&name, &sysin) {
            self.a = to_i16(self.sysin as u16);
            Event::Running
        } else if matches_name(&name, &sysprint) {
            self.a = to_i16(self.sysprint as u16);
            Event::Running
        } else {
            self.a = 0;
            if output {
                Event::FindOutput(p)
            } else {
                Event::FindInput(p)
            }
        }
    }

    fn endread(&mut self, pc: u16) -> (e: Event)
        requires
            state_wf(old(self)@),
        ensures
            (final(self)@, e) == endread_spec(old(self)@, pc),
            state_wf(final(self)@),
    {
        self.pc = pc;
        if self.cis != self.sysin && self.cis < self.streams.len() {
            let h: usize = self.cis;
            self.close(h);
            self.cis = self.sysin;
            Event::EndRead(h)
        } else {
            Event::Running
        }
    }

    fn endwrite(&mut self, pc: u16) -> (e: Event)
        requires
            state_wf(old(self)@),
        ensures
            (final(self)@, e) == endwrite_spec(old(self)@, pc),
            state_wf(final(self)@),
    {
        self.pc = pc;
        if self.cos != self.sysprint && self.cos < self.streams.len() {
            let h: usize = self.cos;
            self.close(h);
            self.cos = self.sysprint;
            Event::EndWrite(h)
        } else {
            Event::Running
        }
    }

    fn aptovec(&mut self, d_addr: u16, pc: u16) -> (e: Event)
        requires
            state_wf(old(self)@),
        ensures
            (final(self)@, e) == aptovec_spec(old(self)@, d_addr as int, pc),
            state_wf(final(self)@),
    {
        let v: usize = d_addr as usize + 2;
        if v + 2 > WORDCOUNT {
            return Event::Fatal(Fault::BadAddress);
        }
        let argc: usize = to_u16(self.image.m[v + 1]) as usize;
        let base: usize = (d_addr as usize + argc + 1) % 0x10000;
        if base + 3 >= WORDCOUNT {
            return Event::Fatal(Fault::BadAddress);
        }
        self.image.m[base] = to_i16(self.sp);
        self.image.m[base + 1] = to_i16(pc);
        self.image.m[base + 2] = to_i16(d_addr);
        let count: i16 = self.image.m[v + 1];
        self.image.m[base + 3] = count;
        self.sp = base as u16;
        self.pc = to_u16(self.image.m[v]);
        Event::Running
    }

    fn changeco(&mut self, v: usize, pc: u16) -> (e: Event)
        requires
            state_wf(old(self)@),
            v <= 0x10001,
        ensures
            (final(self)@, e) == changeco_call_spec(old(self)@, v as int, pc),
            state_wf(final(self)@),
    {
        if v + 3 > WORDCOUNT {
            return Event::Fatal(Fault::BadAddress);
        }
        let arg: i16 = self.image.m[v];
        let c: usize = to_u16(self.image.m[v + 1]) as usize;
        let g: usize = to_u16(self.image.m[v + 2]) as usize;
        if c == 0 || c + 1 >= WORDCOUNT {
            return Event::Fatal(Fault::BadChangecoC);
        }
        if g >= WORDCOUNT {
            return Event::Fatal(Fault::BadCurrco);
        }
        let cur: usize = to_u16(self.image.m[g]) as usize;
        if cur != 0 && cur + 1 >= WORDCOUNT {
            return Event::Fatal(Fault::BadCurrco);
        }
        let ghost m0 = self.image.m@;
        let saved_cur: i16 = self.image.m[cur];
        let saved_next: i16 = if cur + 1 < WORDCOUNT {
            self.image.m[cur + 1]
        } else {
            0
        };
        let saved_g: i16 = self.image.m[g];
        if cur != 0 {
            self.image.m[cur] = to_i16(self.sp);
            self.image.m[cur + 1] = to_i16(pc);
        }
        self.image.m[g] = to_i16(c as u16);
        let nsp: u16 = to_u16(self.image.m[c]);
        let npc: u16 = to_u16(self.image.m[c + 1]);
        let bad_sp: bool = (nsp as usize) < PROGSTART || nsp as usize >= WORDCOUNT;
        let bad_pc: bool = (npc as usize) < PROGSTART || npc as usize >= WORDCOUNT;
        if bad_sp || bad_pc {
            self.image.m[g] = saved_g;
            if cur != 0 {
                self.image.m[cur + 1] = saved_next;
                self.image.m[cur] = saved_cur;
            }
            assert(self.image.m@ =~= m0);
            if bad_sp {
                return Event::Fatal(Fault::BadChangecoSp(nsp));
            }
            return Event::Fatal(Fault::BadChangecoPc(npc));
        }
        self.sp = nsp;
        self.pc = npc;
        self.a = arg;
        Event::Running
    }

    fn getvec_call(&mut self, v: usize, pc: u16) -> (e: Event)
        requires
            state_wf(old(self)@),
            v <= 0x10001,
        ensures
            (final(self)@, e) == getvec_call_spec(old(self)@, v as int, pc),
            state_wf(final(self)@),
    {
        if v + 1 > WORDCOUNT {
            return Event::Fatal(Fault::BadAddress);
        }
        let n: usize = to_u16(self.image.m[v]) as usize;
        let r: usize = self.heap.getvec(n, self.sp);
        let ghost mid = *self;
        if r != 0 {
            let mut i: usize = 0;
            while i < n
                invariant
                    0 <= i <= n,
                    r + n <= WORDCOUNT,
                    self.image.m.len() == WORDCOUNT,
                    self.image.lomem == old(self).image.lomem,
                    self.image.cp == old(self).image.cp,
                    self.heap == mid.heap,
                    self.streams == mid.streams,
                    self.output == mid.output,
                    self.cis == mid.cis,
                    self.cos == mid.cos,
                    self.sysin == mid.sysin,
                    self.sysprint == mid.sysprint,
                    self.pc == mid.pc,
                    self.sp == mid.sp,
                    self.a == mid.a,
                    self.b == mid.b,
                    forall|j: int|
                        0 <= j < WORDCOUNT ==> self.image.m@[j] == (if r <= j < r + i {
                            0i16
                        } else {
                            old(self).image.m@[j]
                        }),
                decreases n - i,
            {
                self.image.m[r + i] = 0;
                i += 1;
            }
            assert(self.image.m@ =~= zeroed(old(self).image.m@, r as int, n as int));
        }
        self.a = to_i16(r as u16);
        self.pc = pc;
        Event::Running
    }

    fn write_call(&mut self, k: i16, v: usize, pc: u16) -> (e: Event)
        requires
            state_wf(old(self)@),
            v <= 0x10001,
            is_write_call(k),
        ensures
            (final(self)@, e) == write_call_spec(old(self)@, k, v as int, pc),
            state_wf(final(self)@),
    {
        let mut text: Vec<u8> = Vec::new();
        if k == K63_NEWLINE {
            text.push(10);
            assert(text@ =~= seq![10u8]);
        } else if k == K64_NEWPAGE {
            text.push(12);
            assert(text@ =~= seq![12u8]);
        } else if k == K76_WRITEF {
            match writef(&self.image.m, v) {
                None => {
                    return Event::Fatal(Fault::BadAddress);
                },
                Some(t) => {
                    text = t;
                },
            }
        } else if k == K60_WRITES {
            if v + 1 > WORDCOUNT {
                return Event::Fatal(Fault::BadAddress);
            }
            let p: usize = to_u16(self.image.m[v]) as usize;
            if !string_ok(&self.image.m, p) {
                return Event::Fatal(Fault::BadAddress);
            }
            text = read_string(&self.image.m, p);
        } else if k == K14_WRCH || k == K62_WRITEN {
            if v + 1 > WORDCOUNT {
                return Event::Fatal(Fault::BadAddress);
            }
            if k == K14_WRCH {
                text.push((to_u16(self.image.m[v]) % 256) as u8);
                assert(text@ =~= seq![wrch_byte(self.image.m@[v as int])]);
            } else {
                writen(&mut text, self.image.m[v]);
                assert(text@ =~= writen_spec(self.image.m@[v as int] as int));
            }
        } else {
            if v + 2 > WORDCOUNT {
                return Event::Fatal(Fault::BadAddress);
            }
            let x: i16 = self.image.m[v];
            let d: i16 = self.image.m[v + 1];
            if k == K68_WRITED {
                writed(&mut text, x, d);
                assert(text@ =~= writed_spec(x as int, d as int));
            } else if k == K75_WRITEHEX {
                writehex(&mut text, to_u16(x), d);
                assert(text@ =~= hex_text(word_u(x) as nat, d as int));
            } else {
                writeoct(&mut text, to_u16(x), d);
                assert(text@ =~= oct_text(word_u(x) as nat, d as int));
            }
        }
        self.emit(&text);
        self.pc = pc;
        Event::Running
    }

    fn byte_call(&mut self, k: i16, v: usize, pc: u16) -> (e: Event)
        requires
            state_wf(old(self)@),
            v <= 0x10001,
            is_byte_call(k),
        ensures
            (final(self)@, e) == byte_call_spec(old(self)@, k, v as int, pc),
            state_wf(final(self)@),
    {
        if v + 2 > WORDCOUNT {
            return Event::Fatal(Fault::BadAddress);
        }
        let x: usize = to_u16(self.image.m[v]) as usize;
        let y: usize = to_u16(self.image.m[v + 1]) as usize;
        if k == K66_PACKSTRING {
            if x >= WORDCOUNT {
                return Event::Fatal(Fault::BadAddress);
            }
            let len: i16 = self.image.m[x];
            if len < 0 || x + len as usize >= WORDCOUNT || y + len as usize / 2 >= WORDCOUNT {
                return Event::Fatal(Fault::BadAddress);
            }
            let r: i16 = packstring(&mut self.image.m, x, y);
            self.a = r;
        } else if k == K67_UNPACKSTRING {
            if x >= WORDCOUNT {
                return Event::Fatal(Fault::BadAddress);
            }
            let len: usize = get_byte(&self.image.m, 2 * x) as usize;
            if x + len / 2 >= WORDCOUNT || y + len >= WORDCOUNT {
                return Event::Fatal(Fault::BadAddress);
            }
            unpackstring(&mut self.image.m, x, y);
        } else if k == K85_GETBYTE {
            if (2 * x + y) / 2 >= WORDCOUNT {
                return Event::Fatal(Fault::BadAddress);
            }
            self.a = get_byte(&self.image.m, 2 * x + y) as i16;
        } else {
            if v + 3 > WORDCOUNT || (2 * x + y) / 2 >= WORDCOUNT {
                return Event::Fatal(Fault::BadAddress);
            }
            let c: u8 = (to_u16(self.image.m[v + 2]) % 256) as u8;
            set_byte(&mut self.image.m, 2 * x + y, c);
        }
        self.pc = pc;
        Event::Running
    }

    fn kcall(&mut self, d_addr: u16, pc: u16) -> (e: Event)
        requires
            state_wf(old(self)@),
        ensures
            (final(self)@, e) == kcall_spec(old(self)@, d_addr as int, pc),
            state_wf(final(self)@),
    {
        let v: usize = d_addr as usize + 2;
        let k: i16 = self.a;
        if k == K01_START || k == K03_ABORT {
            self.pc = pc;
            Event::Running
        } else if k == K11_SELECTINPUT || k == K12_SELECTOUTPUT || k == K30_STOP {
            if v + 1 > WORDCOUNT {
                return Event::Fatal(Fault::BadAddress);
            }
            let x: i16 = self.image.m[v];
            self.pc = pc;
            if k == K11_SELECTINPUT {
                self.cis = to_u16(x) as usize;
                Event::Running
            } else if k == K12_SELECTOUTPUT {
                self.cos = to_u16(x) as usize;
                Event::Running
            } else {
                Event::Halt(x)
            }
        } else if k == K13_RDCH {
            self.rdch(pc)
        } else if k == K16_INPUT {
            self.a = to_i16(self.cis as u16);
            self.pc = pc;
            Event::Running
        } else if k == K17_OUTPUT {
            self.a = to_i16(self.cos as u16);
            self.pc = pc;
            Event::Running
        } else if k == K31_LEVEL {
            self.a = to_i16(self.sp);
            self.pc = pc;
            Event::Running
        } else if k == K32_LONGJUMP {
            if v + 2 > WORDCOUNT {
                return Event::Fatal(Fault::BadAddress);
            }
            self.sp = to_u16(self.image.m[v]);
            self.pc = to_u16(self.image.m[v + 1]);
            Event::Running
        } else if k == K40_APTOVEC {
            self.aptovec(d_addr, pc)
        } else if k == K41_FINDOUTPUT {
            self.find(v, pc, true)
        } else if k == K42_FINDINPUT {
            self.find(v, pc, false)
        } else if k == K46_ENDREAD {
            self.endread(pc)
        } else if k == K47_ENDWRITE {
            self.endwrite(pc)
        } else if k == K14_WRCH || k == K60_WRITES || k == K62_WRITEN || k == K63_NEWLINE || k
            == K64_NEWPAGE || k == K68_WRITED || k == K75_WRITEHEX || k == K76_WRITEF || k
            == K77_WRITEOCT {
            self.write_call(k, v, pc)
        } else if k == K66_PACKSTRING || k == K67_UNPACKSTRING || k == K85_GETBYTE || k
            == K86_PUTBYTE {
            self.byte_call(k, v, pc)
        } else if k == K70_READN {
            self.readn_call(pc)
        } else if k == K87_GETVEC {
            self.getvec_call(v, pc)
        } else if k == K88_FREEVEC {
            if v + 1 > WORDCOUNT {
                return Event::Fatal(Fault::BadAddress);
            }
            let r: i16 = self.heap.freevec(to_u16(self.image.m[v]) as usize);
            self.a = r;
            self.pc = pc;
            Event::Running
        } else if k == K90_CHANGECO {
            self.changeco(v, pc)
        } else {
            Event::Fatal(Fault::UnknownCall(k))
        }
    }
}

impl BcplState {
    fn xcode(&mut self, d: u16, pc: u16) -> (e: Event)
        requires
            state_wf(old(self)@),
        ensures
            (final(self)@, e) == xcode_spec(old(self)@, d as int, pc),
            state_wf(final(self)@),
    {
        let a: i16 = self.a;
        let b: i16 = self.b;
        let k: u16 = to_u16(a) % 16;
        if d == 1 {
            let i: usize = to_u16(a) as usize;
            if i >= WORDCOUNT {
                return Event::Fatal(Fault::BadLoad(a));
            }
            self.a = self.image.m[i];
        } else if d == 2 {
            self.a = neg16(a);
        } else if d == 3 {
            self.a = !a;
        } else if d == 4 {
            let sp: usize = self.sp as usize;
            if sp + 1 >= WORDCOUNT {
                return Event::Fatal(Fault::BadAddress);
            }
            self.pc = to_u16(self.image.m[sp + 1]);
            self.sp = to_u16(self.image.m[sp]);
            return Event::Running;
        } else if d == 5 {
            self.a = mul16(a, b);
        } else if d == 6 {
            if a != 0 {
                self.a = div16(b, a);
            }
        } else if d == 7 {
            if a != 0 {
                self.a = rem16(b, a);
            }
        } else if d == 8 {
            self.a = add16(b, a);
        } else if d == 9 {
            self.a = sub16(b, a);
        } else if d == 10 {
            self.a = if b == a { -1 } else { 0 };
        } else if d == 11 {
            self.a = if b != a { -1 } else { 0 };
        } else if d == 12 {
            self.a = if b < a { -1 } else { 0 };
        } else if d == 13 {
            self.a = if b >= a { -1 } else { 0 };
        } else if d == 14 {
            self.a = if b > a { -1 } else { 0 };
        } else if d == 15 {
            self.a = if b <= a { -1 } else { 0 };
        } else if d == 16 {
            self.a = to_i16(to_u16(b) << k);
        } else if d == 17 {
            self.a = to_i16(to_u16(b) >> k);
        } else if d == 18 {
            self.a = b & a;
        } else if d == 19 {
            self.a = b | a;
        } else if d == 20 {
            self.a = b ^ a;
        } else if d == 21 {
            self.a = b ^ !a;
        } else if d == 22 {
            self.pc = pc;
            return Event::Halt(0);
        } else if d == 23 {
            let at0: usize = pc as usize;
            if at0 + 1 >= WORDCOUNT {
                return Event::Fatal(Fault::BadAddress);
            }
            let mut count: i16 = self.image.m[at0];
            let mut at: usize = at0 + 2;
            while count > 0
                invariant
                    *self == *old(self),
                    state_wf(self@),
                    a == self.a,
                    d == 23,
                    at0 == pc,
                    at0 + 1 < WORDCOUNT,
                    count <= self.image.m@[at0 as int],
                    at == at0 + 2 + 2 * (self.image.m@[at0 as int] - count) || count <= 0,
                    at <= 0x20000,
                    switch_target(self.image.m@, a, at as int, count as int) == switch_target(
                        self.image.m@,
                        a,
                        pc + 2,
                        self.image.m@[pc as int] as int,
                    ),
                decreases count,
            {
                if at + 1 >= WORDCOUNT {
                    return Event::Fatal(Fault::BadAddress);
                }
                if self.image.m[at] == a {
                    self.pc = to_u16(self.image.m[at + 1]);
                    return Event::Running;
                }
                at += 2;
                count -= 1;
            }
            self.pc = to_u16(self.image.m[at0 + 1]);
            return Event::Running;
        } else {
            return Event::Fatal(Fault::UnknownExec(d));
        }
        self.pc = pc;
        Event::Running
    }

    fn execute(&mut self, code: u16, d: u16, pc: u16) -> (e: Event)
        requires
            state_wf(old(self)@),
            code < 8,
        ensures
            (final(self)@, e) == execute_spec(old(self)@, code as int, d as int, pc),
            state_wf(final(self)@),
    {
        if code == F0_L {
            self.b = self.a;
            self.a = to_i16(d);
            self.pc = pc;
            Event::Running
        } else if code == F1_S {
            if d as usize >= WORDCOUNT {
                return Event::Fatal(Fault::BadStore(d));
            }
            self.image.m[d as usize] = self.a;
            self.pc = pc;
            Event::Running
        } else if code == F2_A {
            self.a = add16(self.a, to_i16(d));
            self.pc = pc;
            Event::Running
        } else if code == F3_J {
            self.pc = d;
            Event::Running
        } else if code == F4_T {
            self.pc = if self.a != 0 { d } else { pc };
            Event::Running
        } else if code == F5_F {
            self.pc = if self.a == 0 { d } else { pc };
            Event::Running
        } else if code == F6_K {
            let d_addr: u16 = ((d as u32 + self.sp as u32) % 0x10000) as u16;
            if self.a < PROGSTART as i16 {
                self.kcall(d_addr, pc)
            } else if d_addr as usize + 1 >= WORDCOUNT {
                Event::Fatal(Fault::BadFrame(d_addr))
            } else {
                self.image.m[d_addr as usize] = to_i16(self.sp);
                self.image.m[d_addr as usize + 1] = to_i16(pc);
                self.sp = d_addr;
                self.pc = self.a as u16;
                Event::Running
            }
        } else {
            self.xcode(d, pc)
        }
    }

    /// Carries out the instruction at `pc`.
    pub fn step(&mut self) -> (e: Event)
        requires
            state_wf(old(self)@),
        ensures
            (final(self)@, e) == step_spec(old(self)@),
            state_wf(final(self)@),
    {
        let pc0: usize = self.pc as usize;
        if pc0 >= WORDCOUNT {
            return Event::Fatal(Fault::BadPc(self.pc));
        }
        let w: u16 = to_u16(self.image.m[pc0]);
        let long: bool = (w / FD_BIT) % 2 == 1;
        if long && pc0 + 1 >= WORDCOUNT {
            return Event::Fatal(Fault::BadPc((pc0 + 1) as u16));
        }
        let mut d: u16 = if long {
            to_u16(self.image.m[pc0 + 1])
        } else {
            w / 256
        };
        let pc: u16 = if long {
            (pc0 + 2) as u16
        } else {
            (pc0 + 1) as u16
        };
        if (w / FP_BIT) % 2 == 1 {
            d = ((d as u32 + self.sp as u32) % 0x10000) as u16;
        }
        if (w / FI_BIT) % 2 == 1 {
            if d as usize >= WORDCOUNT {
                return Event::Fatal(Fault::BadAddress);
            }
            d = to_u16(self.image.m[d as usize]);
        }
        self.execute(w % 8, d, pc)
    }

    /// Runs the machine for up to `fuel` instructions. `Running` means
    /// that the fuel ran out and the machine can go on.
    pub fn interpret(&mut self, fuel: u64) -> (e: Event)
        requires
            state_wf(old(self)@),
        ensures
            (final(self)@, e) == run_spec(old(self)@, fuel as nat),
            state_wf(final(self)@),
    {
        let mut left: u64 = fuel;
        while left > 0
            invariant
                state_wf(self@),
                run_spec(self@, left as nat) == run_spec(old(self)@, fuel as nat),
            decreases left,
        {
            let e: Event = self.step();
            match e {
                Event::Running => {},
                _ => {
                    return e;
                },
            }
            left -= 1;
        }
        Event::Running
    }

    /// A machine with an empty image and heap, the default input at
    /// handle 1 and the default output at handle 2.
    pub fn new() -> (r: BcplState)
        ensures
            state_wf(r@),
            r@.lomem == 0,
            forall|i: int| 0 <= i < WORDCOUNT ==> r@.m[i] == 0,
            r@.heap.top == WORDCOUNT - 1,
            r@.heap.free.len() == 0,
            r@.cis == 1 && r@.sysin == 1 && r@.cos == 2 && r@.sysprint == 2,
            r@.cp == 0,
            forall|i: int| 0 <= i < WORDCOUNT ==> r@.heap.sizes[i] == 0,
            r@.streams.len() == 3,
            r@.streams[0] == (StreamView {
                kind: StreamKind::Closed,
                data: Seq::empty(),
                pos: 0,
                live: false,
            }),
            r@.streams[1] == (StreamView {
                kind: StreamKind::Input,
                data: Seq::empty(),
                pos: 0,
                live: true,
            }),
            r@.streams[2] == (StreamView {
                kind: StreamKind::Output,
                data: Seq::empty(),
                pos: 0,
                live: false,
            }),
            r@.output.len() == 0,
            r@.pc == 0 && r@.sp == 0 && r@.a == 0 && r@.b == 0,
    {
        let mut streams: Vec<Stream> = Vec::new();
        streams.push(Stream { kind: StreamKind::Closed, data: Vec::new(), pos: 0, live: false });
        streams.push(Stream { kind: StreamKind::Input, data: Vec::new(), pos: 0, live: true });
        streams.push(Stream { kind: StreamKind::Output, data: Vec::new(), pos: 0, live: false });
        BcplState {
            image: Image::new(),
            heap: Heap::new(),
            cis: 1,
            cos: 2,
            sysin: 1,
            sysprint: 2,
            streams,
            output: Vec::new(),
            pc: 0,
            sp: 0,
            a: 0,
            b: 0,
        }
    }

    /// Prepares the image for assembly: each word below `PROGSTART` holds
    /// its own index, the heap is empty, and three words of code at
    /// `PROGSTART` make the start call and then halt.
    pub fn init(&mut self)
        requires
            state_wf(old(self)@),
        ensures
            state_wf(final(self)@),
            forall|i: int| 0 <= i < PROGSTART ==> final(self)@.m[i] == i,
            final(self)@.m[PROGSTART as int] == 264,
            final(self)@.m[PROGSTART + 1] == 518,
            final(self)@.m[PROGSTART + 2] == 5639,
            forall|i: int| PROGSTART + 3 <= i < WORDCOUNT ==> final(self)@.m[i] == old(self)@.m[i],
            final(self)@.lomem == PROGSTART + 3,
            final(self)@.cp == 0,
            final(self)@.heap.top == WORDCOUNT - 1,
            final(self)@.heap.free.len() == 0,
            forall|i: int| 0 <= i < WORDCOUNT ==> final(self)@.heap.sizes[i] == 0,
            final(self)@.pc == old(self)@.pc && final(self)@.sp == old(self)@.sp,
            final(self)@.a == old(self)@.a && final(self)@.b == old(self)@.b,
            final(self)@.streams == old(self)@.streams,
            final(self)@.output == old(self)@.output,
            final(self)@.cis == old(self)@.cis && final(self)@.cos == old(self)@.cos,
            final(self)@.sysin == old(self)@.sysin && final(self)@.sysprint == old(
                self,
            )@.sysprint,
    {
        let mut i: usize = 0;
        while i < PROGSTART
            invariant
                0 <= i <= PROGSTART,
                self.image.m.len() == WORDCOUNT,
                forall|j: int| 0 <= j < i ==> self.image.m@[j] == j,
                forall|j: int| i <= j < WORDCOUNT ==> self.image.m@[j] == old(self).image.m@[j],
                self.streams == old(self).streams,
                self.output == old(self).output,
                self.cis == old(self).cis,
                self.cos == old(self).cos,
                self.sysin == old(self).sysin,
                self.sysprint == old(self).sysprint,
                self.pc == old(self).pc,
                self.sp == old(self).sp,
                self.a == old(self).a,
                self.b == old(self).b,
            decreases PROGSTART - i,
        {
            self.image.m[i] = i as i16;
            i += 1;
        }
        self.image.lomem = PROGSTART;
        self.image.cp = 0;
        self.heap = Heap::new();
        self.image.stw(264);
        self.image.stw(518);
        self.image.stw(5639);
    }

    /// Puts the registers where a program starts: `pc` at `PROGSTART`,
    /// the stack just past the code.
    pub fn start(&mut self)
        requires
            state_wf(old(self)@),
        ensures
            final(self)@ == (State {
                pc: PROGSTART as u16,
                sp: old(self)@.lomem as u16,
                a: 0,
                b: 0,
                ..old(self)@
            }),
            state_wf(final(self)@),
    {
        self.pc = PROGSTART as u16;
        self.sp = self.image.lomem as u16;
        self.a = 0;
        self.b = 0;
    }

    /// Assembles a source text into the image, after what is there. The
    /// end of the text ends its last unit: a label that is referenced and
    /// not defined is an error, and every label is unseen afterwards.
    pub fn loadcode(&mut self, src: &Vec<u8>) -> (r: Result<(), AsmError>)
        requires
            state_wf(old(self)@),
        ensures
            state_wf(final(self)@),
            match assemble_spec(
                ImageView { m: old(self)@.m, lomem: old(self)@.lomem, cp: old(self)@.cp },
                src@,
            ) {
                Ok(iv) => r is Ok && final(self)@ == (State {
                    m: iv.m,
                    lomem: iv.lomem,
                    cp: iv.cp,
                    ..old(self)@
                }),
                Err(e) => r == Err::<(), AsmError>(e),
            },
            final(self)@ == (State {
                m: assemble_image(old(self).image@, src@).m,
                lomem: assemble_image(old(self).image@, src@).lomem,
                cp: assemble_image(old(self).image@, src@).cp,
                ..old(self)@
            }),
    {
        self.image.assemble(src)
    }

    /// Adds a stream to the table and gives its handle, or 0 where the
    /// table is full.
    pub fn open_stream(&mut self, output: bool, data: Vec<u8>, live: bool) -> (h: usize)
        requires
            state_wf(old(self)@),
        ensures
            state_wf(final(self)@),
            old(self)@.streams.len() >= 0x7fff ==> h == 0 && final(self)@ == old(self)@,
            old(self)@.streams.len() < 0x7fff ==> h == old(self)@.streams.len() && final(self)@ == (
            State {
                streams: old(self)@.streams.push(
                    StreamView {
                        kind: if output {
                            StreamKind::Output
                        } else {
                            StreamKind::Input
                        },
                        data: data@,
                        pos: 0,
                        live: live,
                    },
                ),
                ..old(self)@
            }),
    {
        if self.streams.len() >= 0x7fff {
            return 0;
        }
        let kind: StreamKind = if output {
            StreamKind::Output
        } else {
            StreamKind::Input
        };
        self.streams.push(Stream { kind, data, pos: 0, live });
        assert(streams_view(self.streams@) =~= streams_view(old(self).streams@).push(
            StreamView { kind: kind, data: data@, pos: 0, live: live },
        ));
        self.streams.len() - 1
    }

    /// Answers a `FindInput` or `FindOutput` event: register `a` gets the
    /// handle of the stream that the host opened.
    pub fn answer_find(&mut self, h: usize)
        requires
            h < 0x8000,
        ensures
            final(self)@ == (State { a: h as i16, ..old(self)@ }),
    {
        self.a = h as i16;
    }

    /// Makes stream `h` the current and the default input.
    pub fn pipeinput(&mut self, h: usize)
        requires
            h < 0x8000,
        ensures
            final(self)@ == (State { cis: h as int, sysin: h as int, ..old(self)@ }),
    {
        self.cis = h;
        self.sysin = h;
    }

    /// Makes stream `h` the current and the default output.
    pub fn pipeoutput(&mut self, h: usize)
        requires
            h < 0x8000,
        ensures
            final(self)@ == (State { cos: h as int, sysprint: h as int, ..old(self)@ }),
    {
        self.cos = h;
        self.sysprint = h;
    }

    /// Hands more bytes to input stream `h`, and says whether still more
    /// may come. Gives `false`, and changes nothing, where `h` is no open
    /// input stream.
    pub fn supply_input(&mut self, h: usize, bytes: &Vec<u8>, live: bool) -> (ok: bool)
        requires
            state_wf(old(self)@),
        ensures
            state_wf(final(self)@),
            ok == (h < old(self)@.streams.len() && old(self)@.streams[h as int].kind
                == StreamKind::Input),
            !ok ==> final(self)@ == old(self)@,
            ok ==> final(self)@ == (State {
                streams: old(self)@.streams.update(
                    h as int,
                    StreamView {
                        data: old(self)@.streams[h as int].data + bytes@,
                        live: live,
                        ..old(self)@.streams[h as int]
                    },
                ),
                ..old(self)@
            }),
    {
        if h >= self.streams.len() {
            return false;
        }
        match self.streams[h].kind {
            StreamKind::Input => {},
            _ => {
                return false;
            },
        }
        let ghost before = self.streams@[h as int]@;
        assert(before == self@.streams[h as int]);
        let mut i: usize = 0;
        while i < bytes.len()
            invariant
                0 <= i <= bytes.len(),
                h < self.streams.len(),
                self.streams.len() == old(self).streams.len(),
                forall|j: int|
                    0 <= j < self.streams.len() && j != h ==> self.streams@[j] == old(
                        self,
                    ).streams@[j],
                self.streams@[h as int].kind == before.kind,
                self.streams@[h as int].pos == before.pos,
                self.streams@[h as int].data@ == before.data + bytes@.subrange(0, i as int),
                self.image == old(self).image,
                self.heap == old(self).heap,
                self.output == old(self).output,
                self.cis == old(self).cis,
                self.cos == old(self).cos,
                self.sysin == old(self).sysin,
                self.sysprint == old(self).sysprint,
                self.pc == old(self).pc,
                self.sp == old(self).sp,
                self.a == old(self).a,
                self.b == old(self).b,
            decreases bytes.len() - i,
        {
            self.streams[h].data.push(bytes[i]);
            i += 1;
            assert(self.streams@[h as int].data@ =~= before.data + bytes@.subrange(0, i as int));
        }
        self.streams[h].live = live;
        assert(bytes@.subrange(0, bytes.len() as int) =~= bytes@);
        assert(streams_view(self.streams@) =~= old(self)@.streams.update(
            h as int,
            StreamView { data: before.data + bytes@, live: live, ..before },
        ));
        true
    }

    /// Gives out what the program has written since the last call, each
    /// byte with its stream, and empties the list.
    pub fn take_output(&mut self) -> (out: Vec<(usize, u8)>)
        ensures
            out@ == old(self)@.output,
            final(self)@ == (State { output: Seq::empty(), ..old(self)@ }),
    {
        let mut out: Vec<(usize, u8)> = Vec::new();
        core::mem::swap(&mut out, &mut self.output);
        out
    }

    /// The characters of the packed string at word `p`, or `None` where
    /// it does not lie inside the image.
    pub fn cstr(&self, p: usize) -> (r: Option<Vec<u8>>)
        requires
            state_wf(self@),
        ensures
            match r {
                Some(t) => string_fits(self@.m, p as int) && t@ == string_at(self@.m, p as int),
                None => !string_fits(self@.m, p as int),
            },
    {
        if string_ok(&self.image.m, p) {
            Some(read_string(&self.image.m, p))
        } else {
            None
        }
    }
}

/// A frame call stores the caller's stack pointer at the frame base and
/// the address of the next instruction in the word after it, and enters
/// the procedure on the new frame.
pub proof fn lemma_frame_call(s: State)
    requires
        s.m.len() == WORDCOUNT,
        decode_spec(s) is Ok,
        decode_spec(s)->Ok_0.w % 8 == 6,
        s.a >= PROGSTART,
        (decode_spec(s)->Ok_0.d + s.sp) % 0x10000 + 1 < WORDCOUNT,
    ensures
        step_spec(s).1 == Event::Running,
        word_u(step_spec(s).0.m[(decode_spec(s)->Ok_0.d + s.sp) % 0x10000]) == s.sp,
        word_u(step_spec(s).0.m[(decode_spec(s)->Ok_0.d + s.sp) % 0x10000 + 1]) == decode_spec(
            s,
        )->Ok_0.pc,
        step_spec(s).0.sp == (decode_spec(s)->Ok_0.d + s.sp) % 0x10000,
        step_spec(s).0.pc == s.a,
{
}

/// A return takes the stack pointer from the word at the frame base and
/// the program counter from the word after it.
pub proof fn lemma_return(s: State)
    requires
        s.m.len() == WORDCOUNT,
        decode_spec(s) is Ok,
        decode_spec(s)->Ok_0.w % 8 == 7,
        decode_spec(s)->Ok_0.d == 4,
        s.sp + 1 < WORDCOUNT,
    ensures
        step_spec(s).1 == Event::Running,
        step_spec(s).0.sp == word_u(s.m[s.sp as int]),
        step_spec(s).0.pc == word_u(s.m[s.sp + 1]),
{
}

/// A switch that succeeds leaves its target as the current coroutine.
pub proof fn lemma_changeco_sets_current(
    m: Seq<i16>,
    sp: u16,
    pc: u16,
    arg: i16,
    c: int,
    g: int,
)
    requires
        m.len() == WORDCOUNT,
        0 <= c < 0x10000,
        0 <= g,
        changeco_spec(m, sp, pc, arg, c, g) is Ok,
    ensures
        word_u(changeco_spec(m, sp, pc, arg, c, g)->Ok_0.m[g]) == c,
        changeco_spec(m, sp, pc, arg, c, g)->Ok_0.a == arg,
{
}

/// A coroutine that switched away is entered again where it left. Let
/// `a` be current when it switches to `b` with the registers `sp` and
/// `pc`. If the first two words of `a`'s block still hold what that
/// switch left there when some coroutine `cur`, whose block does not
/// overlap them, switches to `a` with argument `z`, then that switch
/// succeeds with `sp` and `pc` as they were and `z` in register `a`,
/// and leaves `a` current.
pub proof fn lemma_changeco_resumes(
    m1: Seq<i16>,
    sp: u16,
    pc: u16,
    y: i16,
    a: int,
    b: int,
    g: int,
    m2: Seq<i16>,
    sp2: u16,
    pc2: u16,
    z: i16,
)
    requires
        m1.len() == WORDCOUNT,
        m2.len() == WORDCOUNT,
        0 < a && a + 1 < WORDCOUNT,
        0 <= b < 0x10000,
        0 <= g < WORDCOUNT,
        g != a && g != a + 1,
        word_u(m1[g]) == a,
        PROGSTART <= sp < WORDCOUNT,
        PROGSTART <= pc < WORDCOUNT,
        changeco_spec(m1, sp, pc, y, b, g) is Ok,
        m2[a] == changeco_spec(m1, sp, pc, y, b, g)->Ok_0.m[a],
        m2[a + 1] == changeco_spec(m1, sp, pc, y, b, g)->Ok_0.m[a + 1],
        word_u(m2[g]) == 0 || (word_u(m2[g]) + 1 < a || word_u(m2[g]) > a + 1),
        word_u(m2[g]) == 0 || word_u(m2[g]) + 1 < WORDCOUNT,
    ensures
        changeco_spec(m2, sp2, pc2, z, a, g) is Ok,
        changeco_spec(m2, sp2, pc2, z, a, g)->Ok_0.sp == sp,
        changeco_spec(m2, sp2, pc2, z, a, g)->Ok_0.pc == pc,
        changeco_spec(m2, sp2, pc2, z, a, g)->Ok_0.a == z,
        word_u(changeco_spec(m2, sp2, pc2, z, a, g)->Ok_0.m[g]) == a,
{
}

/// What the assembler emits, the machine decodes. The short form of
/// function code `code` with operand `d`, with or without the indirect
/// and the base modifier, has that code, those modifiers and that
/// operand, and is not taken for a long form; the first word of the long
/// form has the same code and modifiers, and is taken for one.
pub proof fn lemma_encoding_decodes(code: int, indirect: bool, base: bool, d: int)
    requires
        0 <= code <= 7,
        0 <= d <= 255,
    ensures
        ({
            let n = code + (if indirect { FI_BIT as int } else { 0 }) + (if base { FP_BIT as int } else { 0 });
            let w = word_u(word_of(n + 256 * d));
            let long = word_u(word_of(n + FD_BIT));
            &&& w % 8 == code
            &&& ((w / (FI_BIT as int)) % 2 == 1) == indirect
            &&& ((w / (FP_BIT as int)) % 2 == 1) == base
            &&& (w / (FD_BIT as int)) % 2 == 0
            &&& w / 256 == d
            &&& long % 8 == code
            &&& ((long / (FI_BIT as int)) % 2 == 1) == indirect
            &&& ((long / (FP_BIT as int)) % 2 == 1) == base
            &&& (long / (FD_BIT as int)) % 2 == 1
        }),
{
}

} // verus!
