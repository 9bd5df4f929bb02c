use icint::assembler::AsmError;
use icint::machine::Fault;
use icint::report::{asm_report, fault_report, halt_text};

#[test]
fn assembly_errors_have_their_messages() {
    assert_eq!(asm_report(AsmError::DuplicateLabel(7)), ("DUPLICATE LABEL", 7));
    assert_eq!(asm_report(AsmError::UnsetLabel(8)), ("UNSET LABEL", 8));
    assert_eq!(asm_report(AsmError::BadCh(81)), ("BAD CH", 81));
    assert_eq!(asm_report(AsmError::BadCode(404)), ("BAD CODE AT P", 404));
}

#[test]
fn faults_have_their_messages() {
    assert_eq!(fault_report(Fault::BadPc(19900)), ("BAD PC", 19900));
    assert_eq!(fault_report(Fault::BadPc(65535)), ("BAD PC", -1));
    assert_eq!(fault_report(Fault::BadStore(20000)), ("BAD STORE", 20000));
    assert_eq!(fault_report(Fault::BadFrame(19899)), ("BAD FRAME", 19899));
    assert_eq!(fault_report(Fault::UnknownCall(2)), ("UNKNOWN CALL", 2));
    assert_eq!(fault_report(Fault::UnknownExec(24)), ("UNKNOWN EXEC", 24));
    assert_eq!(fault_report(Fault::BadChangecoSp(100)), ("BAD CHANGECO SP", 100));
    assert_eq!(fault_report(Fault::BadChangecoPc(40000)), ("BAD CHANGECO PC", 40000u16 as i16));
    assert_eq!(fault_report(Fault::BadChangecoC), ("BAD CHANGECO C", 0));
    assert_eq!(fault_report(Fault::BadCurrco), ("BAD CURRCO", 0));
    assert_eq!(fault_report(Fault::BadLoad(-3)), ("BAD LOAD", -3));
    assert_eq!(fault_report(Fault::BadAddress), ("BAD ADDRESS", 0));
}

#[test]
fn halt_line_has_the_number_where_it_is_not_zero() {
    assert_eq!(halt_text(&b"BAD PC".to_vec(), 19900), b"BAD PC #19900\n".to_vec());
    assert_eq!(halt_text(&b"UNKNOWN CALL".to_vec(), -5), b"UNKNOWN CALL #-5\n".to_vec());
    assert_eq!(halt_text(&b"NO INPUT".to_vec(), 0), b"NO INPUT\n".to_vec());
}
