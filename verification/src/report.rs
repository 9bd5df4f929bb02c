//! The one-line messages that a failed assembly or run ends with.

use vstd::prelude::*;
use crate::word::{word_of, to_i16};
use crate::assembler::AsmError;
use crate::machine::Fault;

verus! {

/// The words of the message for an assembly error.
pub open spec fn asm_label(e: AsmError) -> Seq<char> {
    match e {
        AsmError::DuplicateLabel(_) => "DUPLICATE LABEL"@,
        AsmError::UnsetLabel(_) => "UNSET LABEL"@,
        AsmError::BadCh(_) => "BAD CH"@,
        AsmError::BadCode(_) => "BAD CODE AT P"@,
    }
}

/// The number that goes with the message: the label, the character or
/// the emit position.
pub open spec fn asm_number(e: AsmError) -> i16 {
    match e {
        AsmError::DuplicateLabel(n) => n,
        AsmError::UnsetLabel(n) => n,
        AsmError::BadCh(c) => c,
        AsmError::BadCode(p) => p,
    }
}

/// The words of the message for a fault of the machine.
pub open spec fn fault_label(f: Fault) -> Seq<char> {
    match f {
        Fault::BadPc(_) => "BAD PC"@,
        Fault::BadStore(_) => "BAD STORE"@,
        Fault::BadFrame(_) => "BAD FRAME"@,
        Fault::UnknownCall(_) => "UNKNOWN CALL"@,
        Fault::UnknownExec(_) => "UNKNOWN EXEC"@,
        Fault::BadChangecoSp(_) => "BAD CHANGECO SP"@,
        Fault::BadChangecoPc(_) => "BAD CHANGECO PC"@,
        Fault::BadChangecoC => "BAD CHANGECO C"@,
        Fault::BadCurrco => "BAD CURRCO"@,
        Fault::BadLoad(_) => "BAD LOAD"@,
        Fault::BadAddress => "BAD ADDRESS"@,
    }
}

/// The number that goes with the message, as a signed word; 0 where the
/// fault carries none.
pub open spec fn fault_number(f: Fault) -> i16 {
    match f {
        Fault::BadPc(p) => word_of(p as int),
        Fault::BadStore(d) => word_of(d as int),
        Fault::BadFrame(d) => word_of(d as int),
        Fault::UnknownCall(k) => k,
        Fault::UnknownExec(d) => word_of(d as int),
        Fault::BadChangecoSp(sp) => word_of(sp as int),
        Fault::BadChangecoPc(pc) => word_of(pc as int),
        Fault::BadChangecoC => 0,
        Fault::BadCurrco => 0,
        Fault::BadLoad(a) => a,
        Fault::BadAddress => 0,
    }
}

/// The message and the number for an assembly error.
pub fn asm_report(e: AsmError) -> (r: (&'static str, i16))
    ensures
        r.0@ == asm_label(e),
        r.1 == asm_number(e),
{
    match e {
        AsmError::DuplicateLabel(n) => ("DUPLICATE LABEL", n),
        AsmError::UnsetLabel(n) => ("UNSET LABEL", n),
        AsmError::BadCh(c) => ("BAD CH", c),
        AsmError::BadCode(p) => ("BAD CODE AT P", p),
    }
}

/// The message and the number for a fault of the machine.
pub fn fault_report(f: Fault) -> (r: (&'static str, i16))
    ensures
        r.0@ == fault_label(f),
        r.1 == fault_number(f),
{
    match f {
        Fault::BadPc(p) => ("BAD PC", to_i16(p)),
        Fault::BadStore(d) => ("BAD STORE", to_i16(d)),
        Fault::BadFrame(d) => ("BAD FRAME", to_i16(d)),
        Fault::UnknownCall(k) => ("UNKNOWN CALL", k),
        Fault::UnknownExec(d) => ("UNKNOWN EXEC", to_i16(d)),
        Fault::BadChangecoSp(sp) => ("BAD CHANGECO SP", to_i16(sp)),
        Fault::BadChangecoPc(pc) => ("BAD CHANGECO PC", to_i16(pc)),
        Fault::BadChangecoC => ("BAD CHANGECO C", 0),
        Fault::BadCurrco => ("BAD CURRCO", 0),
        Fault::BadLoad(a) => ("BAD LOAD", a),
        Fault::BadAddress => ("BAD ADDRESS", 0),
    }
}

/// The line that a failure is reported with: the message, then ` #` and
/// the number where that is not 0, then a line feed.
pub open spec fn halt_line(label: Seq<u8>, n: i16) -> Seq<u8> {
    if n != 0 {
        label + seq![32u8, 35u8] + crate::format::dec_text(n as int) + seq![10u8]
    } else {
        label + seq![10u8]
    }
}

/// Builds the line that a failure is reported with.
pub fn halt_text(label: &Vec<u8>, n: i16) -> (r: Vec<u8>)
    ensures
        r@ == halt_line(label@, n),
{
    let mut r: Vec<u8> = Vec::new();
    let mut i: usize = 0;
    while i < label.len()
        invariant
            0 <= i <= label.len(),
            r@ == label@.subrange(0, i as int),
        decreases label.len() - i,
    {
        r.push(label[i]);
        i += 1;
        assert(r@ =~= label@.subrange(0, i as int));
    }
    assert(r@ =~= label@);
    if n != 0 {
        r.push(32);
        r.push(35);
        crate::format::writen(&mut r, n);
        assert(crate::format::writen_spec(n as int) =~= crate::format::dec_text(n as int));
    }
    r.push(10);
    assert(r@ =~= halt_line(label@, n));
    r
}

} // verus!
