use icint::machine::{BcplState, Event, Fault, StreamKind};
use icint::memory::set_byte;
use icint::word::{PROGSTART, WORDCOUNT};

fn loaded(src: &str) -> BcplState {
    let mut st = BcplState::new();
    st.init();
    assert_eq!(st.loadcode(&src.as_bytes().to_vec()), Ok(()));
    st.start();
    st
}

fn printed(st: &mut BcplState, h: usize) -> String {
    let bytes: Vec<u8> = st.take_output().iter().filter(|r| r.0 == h).map(|r| r.1).collect();
    String::from_utf8(bytes).unwrap()
}

fn run(src: &str, input: &[u8]) -> (BcplState, Event, String) {
    let mut st = loaded(src);
    assert!(st.supply_input(1, &input.to_vec(), false));
    let e = st.interpret(1_000_000);
    let out = printed(&mut st, 2);
    (st, e, out)
}

/// A machine with the given words at `PROGSTART`, ready to step.
fn with_code(words: &[i16]) -> BcplState {
    let mut st = BcplState::new();
    st.init();
    for (i, &w) in words.iter().enumerate() {
        st.image.m[PROGSTART + i] = w;
    }
    st.image.lomem = PROGSTART + words.len();
    st.start();
    st
}

fn short(code: i16, d: i16) -> i16 {
    (((d as u16) << 8) | code as u16) as i16
}

#[test]
fn bootstrap_alone_halts() {
    let mut st = BcplState::new();
    st.init();
    st.start();
    assert_eq!(st.pc as usize, PROGSTART);
    assert_eq!(st.sp as usize, PROGSTART + 3);
    assert_eq!(st.interpret(100), Event::Halt(0));
}

#[test]
fn hello_via_writes() {
    let (_, e, out) = run("1 C3 C72 C73 C10 2 LL1 SP5 L60 K3 X4 G1L2 Z", b"");
    assert_eq!(e, Event::Halt(0));
    assert_eq!(out, "HI\n");
}

#[test]
fn countdown() {
    let src = "2 L5 S300 3 LI300 SP5 L3 SP6 L68 K3 L63 K3 LI300 A-1 S300 TL3 X4 G1L2 Z";
    let (_, e, out) = run(src, b"");
    assert_eq!(e, Event::Halt(0));
    assert_eq!(out, "  5\n  4\n  3\n  2\n  1\n");
}

#[test]
fn switch_statement() {
    let table = "X23 D3 DL9 D1 DL11 D2 DL12 D3 DL13 11 L111 S301 X22 12 L112 S301 X22 13 L113 S301 X22 9 L99 S301 X22";
    for (a, want) in [(1, 111), (2, 112), (3, 113), (9, 99), (0, 99), (-1, 99)] {
        let src = format!("2 L{} {} G1L2 Z", a, table);
        let src = if a < 0 { src.replace("L-1 ", "L0 A-1 ") } else { src };
        let (st, e, _) = run(&src, b"");
        assert_eq!(e, Event::Halt(0));
        assert_eq!(st.image.m[301], want);
    }
}

#[test]
fn coroutine_ping_pong() {
    let src = "2 L310 S300 L1000 S320 LL5 S321 L10 S330 L0 S331 \
               6 LI331 SP5 L320 SP6 L300 SP7 L90 K3 \
               S331 SP5 L62 K3 L32 SP5 L14 K3 \
               LI330 A-1 S330 TL6 X4 \
               5 A1 SP5 L310 SP6 L300 SP7 L90 K3 JL5 \
               G1L2 Z";
    let (st, e, out) = run(src, b"");
    assert_eq!(e, Event::Halt(0));
    assert_eq!(out, "1 2 3 4 5 6 7 8 9 10 ");
    // the main routine was entered last
    assert_eq!(st.image.m[300], 310);
}

#[test]
fn format_directive_through_the_machine() {
    // the format string at label 1, the arguments 42 and 0xABCD
    let src = "1 C12 C120 C61 C37 C73 C51 C32 C121 C61 C37 C88 C52 C10 \
               2 LL1 SP5 L42 SP6 L-21555 SP7 L76 K3 X4 G1L2 Z";
    let (_, e, out) = run(src, b"");
    assert_eq!(e, Event::Halt(0));
    assert_eq!(out, "x= 42 y=ABCD\n");
}

#[test]
fn load_store_add() {
    let mut st = with_code(&[short(0, 7), short(0, 9), short(2, 5), 1 | 32, 600]);
    assert_eq!(st.step(), Event::Running);
    assert_eq!((st.a, st.b), (7, 0));
    assert_eq!(st.step(), Event::Running);
    assert_eq!((st.a, st.b), (9, 7));
    assert_eq!(st.step(), Event::Running);
    assert_eq!((st.a, st.b), (14, 7));
    assert_eq!(st.step(), Event::Running);
    assert_eq!(st.image.m[600], 14);
    assert_eq!(st.pc as usize, PROGSTART + 5);
}

#[test]
fn add_wraps_and_operand_is_unsigned() {
    let mut st = with_code(&[32, 32767, short(2, 1), 2 | 32, -1]);
    st.step();
    st.step();
    assert_eq!(st.a, -32768);
    st.step();
    assert_eq!(st.a, 32767);
}

#[test]
fn base_and_indirect_modifiers() {
    let mut st = with_code(&[short(0 | 16, 3), short(0 | 8, 44), short(0 | 24, 2)]);
    let sp = st.sp;
    st.image.m[sp as usize + 2] = 1234;
    st.step();
    assert_eq!(st.a, (sp + 3) as i16);
    st.step();
    assert_eq!(st.a, 44);
    st.step();
    assert_eq!(st.a, 1234);
}

#[test]
fn jumps() {
    let mut st = with_code(&[short(3, 200)]);
    st.step();
    assert_eq!(st.pc, 200);
    for (a, code, taken) in [(0, 4, false), (5, 4, true), (0, 5, true), (5, 5, false)] {
        let mut st = with_code(&[short(code, 200)]);
        st.a = a;
        st.step();
        assert_eq!(st.pc == 200, taken);
        if !taken {
            assert_eq!(st.pc as usize, PROGSTART + 1);
        }
    }
}

#[test]
fn frame_call_saves_sp_and_return_address() {
    let mut st = with_code(&[short(6, 4)]);
    let sp = st.sp;
    st.a = 1000;
    assert_eq!(st.step(), Event::Running);
    let base = sp as usize + 4;
    assert_eq!(st.image.m[base], sp as i16);
    assert_eq!(st.image.m[base + 1], (PROGSTART + 1) as i16);
    assert_eq!(st.sp as usize, base);
    assert_eq!(st.pc, 1000);
}

#[test]
fn return_restores_sp_and_pc() {
    let mut st = with_code(&[short(7, 4)]);
    let sp = st.sp as usize;
    st.image.m[sp] = 777;
    st.image.m[sp + 1] = 888;
    assert_eq!(st.step(), Event::Running);
    assert_eq!(st.sp, 777);
    assert_eq!(st.pc, 888);
}

#[test]
fn call_then_return_comes_back() {
    let mut st = with_code(&[short(6, 2), short(7, 22)]);
    let sp = st.sp;
    st.a = 900;
    st.image.m[900] = short(7, 4);
    st.step();
    assert_eq!(st.pc, 900);
    st.step();
    assert_eq!(st.pc as usize, PROGSTART + 1);
    assert_eq!(st.sp, sp);
    assert_eq!(st.step(), Event::Halt(0));
}

fn alu(d: i16, b: i16, a: i16) -> i16 {
    let mut st = with_code(&[short(7, d)]);
    st.a = a;
    st.b = b;
    assert_eq!(st.step(), Event::Running);
    st.a
}

#[test]
fn extended_arithmetic() {
    assert_eq!(alu(2, 0, 5), -5);
    assert_eq!(alu(2, 0, -32768), -32768);
    assert_eq!(alu(3, 0, 0), -1);
    assert_eq!(alu(3, 0, 0x0F0F), !0x0F0F);
    assert_eq!(alu(5, 300, 300), 90000i32 as i16);
    assert_eq!(alu(6, 17, 5), 3);
    assert_eq!(alu(6, -17, 5), -3);
    assert_eq!(alu(6, 17, 0), 0);
    assert_eq!(alu(6, -32768, -1), -32768);
    assert_eq!(alu(7, 17, 5), 2);
    assert_eq!(alu(7, -17, 5), -2);
    assert_eq!(alu(7, 17, 0), 0);
    assert_eq!(alu(8, 32767, 1), -32768);
    assert_eq!(alu(9, 3, 5), -2);
    assert_eq!(alu(9, -32768, 1), 32767);
}

#[test]
fn extended_comparisons() {
    assert_eq!((alu(10, 3, 3), alu(10, 3, 4)), (-1, 0));
    assert_eq!((alu(11, 3, 3), alu(11, 3, 4)), (0, -1));
    assert_eq!((alu(12, -3, 4), alu(12, 4, 4)), (-1, 0));
    assert_eq!((alu(13, 4, 4), alu(13, -3, 4)), (-1, 0));
    assert_eq!((alu(14, 5, 4), alu(14, 4, 4)), (-1, 0));
    assert_eq!((alu(15, 4, 4), alu(15, 5, 4)), (-1, 0));
}

#[test]
fn extended_bit_operations() {
    assert_eq!(alu(16, 1, 4), 16);
    assert_eq!(alu(16, 1, 15), -32768);
    assert_eq!(alu(16, 3, 15), -32768);
    assert_eq!(alu(16, 1, 16), 1);
    assert_eq!(alu(17, -1, 1), 32767);
    assert_eq!(alu(17, -32768, 15), 1);
    assert_eq!(alu(17, 256, 20), 16);
    assert_eq!(alu(18, 0x0FF0, 0x00FF), 0x00F0);
    assert_eq!(alu(19, 0x0F00, 0x00F0), 0x0FF0);
    assert_eq!(alu(20, 0x0FF0, 0x00FF), 0x0F0F);
    assert_eq!(alu(21, 0x0FF0, 0x00FF), 0x0FF0 ^ !0x00FF);
}

#[test]
fn load_indirect_through_a() {
    let mut st = with_code(&[short(7, 1)]);
    st.image.m[700] = 31;
    st.a = 700;
    st.step();
    assert_eq!(st.a, 31);
    let mut st = with_code(&[short(7, 1)]);
    st.a = -1;
    assert_eq!(st.step(), Event::Fatal(Fault::BadLoad(-1)));
}

#[test]
fn fatal_conditions() {
    let mut st = with_code(&[short(3, 0)]);
    st.pc = WORDCOUNT as u16;
    assert_eq!(st.step(), Event::Fatal(Fault::BadPc(WORDCOUNT as u16)));

    let mut st = with_code(&[1 | 32, 19900]);
    assert_eq!(st.step(), Event::Fatal(Fault::BadStore(19900)));

    let mut st = with_code(&[6 | 32, 19899]);
    st.sp = 0;
    st.a = 1000;
    assert_eq!(st.step(), Event::Fatal(Fault::BadFrame(19899)));

    let mut st = with_code(&[short(6, 2)]);
    st.a = 2;
    assert_eq!(st.step(), Event::Fatal(Fault::UnknownCall(2)));
    let mut st = with_code(&[short(6, 2)]);
    st.a = -5;
    assert_eq!(st.step(), Event::Fatal(Fault::UnknownCall(-5)));

    let mut st = with_code(&[short(7, 24)]);
    assert_eq!(st.step(), Event::Fatal(Fault::UnknownExec(24)));
    let mut st = with_code(&[short(7, 0)]);
    assert_eq!(st.step(), Event::Fatal(Fault::UnknownExec(0)));

    let mut st = with_code(&[8 | 32, 30000]);
    assert_eq!(st.step(), Event::Fatal(Fault::BadAddress));
}

#[test]
fn a_fault_ends_a_run() {
    let mut st = with_code(&[short(0, 1), short(7, 99), short(0, 2)]);
    assert_eq!(st.interpret(10), Event::Fatal(Fault::UnknownExec(99)));
    assert_eq!(st.a, 1);
}

#[test]
fn fuel_bounds_a_run() {
    let mut st = with_code(&[short(2, 1), 3 | 32, PROGSTART as i16]);
    assert_eq!(st.interpret(0), Event::Running);
    assert_eq!(st.a, 0);
    assert_eq!(st.interpret(10), Event::Running);
    assert_eq!(st.a, 5);
    assert_eq!(st.interpret(1), Event::Running);
    assert_eq!(st.a, 6);
}

/// Runs the system call `k` with the given argument words.
fn syscall(st: &mut BcplState, k: i16, args: &[i16]) -> Event {
    let at = st.pc as usize;
    st.image.m[at] = short(6, 3);
    let v = st.sp as usize + 5;
    for (i, &x) in args.iter().enumerate() {
        st.image.m[v + i] = x;
    }
    st.a = k;
    st.step()
}

#[test]
fn stop_returns_its_operand() {
    let mut st = with_code(&[0]);
    assert_eq!(syscall(&mut st, 30, &[17]), Event::Halt(17));
}

#[test]
fn start_and_abort_do_nothing() {
    let mut st = with_code(&[0, 0]);
    assert_eq!(syscall(&mut st, 1, &[]), Event::Running);
    assert_eq!(st.a, 1);
    assert_eq!(syscall(&mut st, 3, &[]), Event::Running);
    assert_eq!(st.pc as usize, PROGSTART + 2);
}

#[test]
fn level_and_longjump() {
    let mut st = with_code(&[0, 0]);
    let sp = st.sp;
    assert_eq!(syscall(&mut st, 31, &[]), Event::Running);
    assert_eq!(st.a, sp as i16);
    assert_eq!(syscall(&mut st, 32, &[5000, 6000]), Event::Running);
    assert_eq!((st.sp, st.pc), (5000, 6000));
}

#[test]
fn aptovec_stores_the_frame_base() {
    let mut st = with_code(&[0]);
    let sp = st.sp;
    let d_addr = sp + 3;
    assert_eq!(syscall(&mut st, 40, &[2000, 10]), Event::Running);
    let base = (d_addr + 10 + 1) as usize;
    assert_eq!(st.image.m[base], sp as i16);
    assert_eq!(st.image.m[base + 1], (PROGSTART + 1) as i16);
    assert_eq!(st.image.m[base + 2], d_addr as i16);
    assert_ne!(st.image.m[base + 2], 3);
    assert_eq!(st.image.m[base + 3], 10);
    assert_eq!(st.sp as usize, base);
    assert_eq!(st.pc, 2000);
}

#[test]
fn select_and_query_streams() {
    let mut st = with_code(&[0, 0, 0, 0]);
    assert_eq!(syscall(&mut st, 16, &[]), Event::Running);
    assert_eq!(st.a, 1);
    assert_eq!(syscall(&mut st, 17, &[]), Event::Running);
    assert_eq!(st.a, 2);
    assert_eq!(syscall(&mut st, 11, &[7]), Event::Running);
    assert_eq!(st.cis, 7);
    assert_eq!(syscall(&mut st, 12, &[9]), Event::Running);
    assert_eq!(st.cos, 9);
}

#[test]
fn rdch_reads_bytes_and_maps_carriage_return() {
    let mut st = with_code(&[0, 0, 0, 0]);
    assert!(st.supply_input(1, &b"a\r".to_vec(), false));
    assert_eq!(syscall(&mut st, 13, &[]), Event::Running);
    assert_eq!(st.a, b'a' as i16);
    assert_eq!(syscall(&mut st, 13, &[]), Event::Running);
    assert_eq!(st.a, 10);
    assert_eq!(syscall(&mut st, 13, &[]), Event::Running);
    assert_eq!(st.a, -1);
    assert_eq!(syscall(&mut st, 13, &[]), Event::Running);
    assert_eq!(st.a, -1);
}

#[test]
fn rdch_waits_for_a_live_stream() {
    let mut st = with_code(&[0, 0]);
    let pc = st.pc;
    assert_eq!(syscall(&mut st, 13, &[]), Event::NeedInput);
    assert_eq!(st.pc, pc);
    assert_eq!(st.a, 13);
    assert!(st.supply_input(1, &b"z".to_vec(), true));
    assert_eq!(st.step(), Event::Running);
    assert_eq!(st.a, b'z' as i16);
}

#[test]
fn rdch_on_a_stream_that_is_not_open_gives_endstream() {
    let mut st = with_code(&[0, 0]);
    st.cis = 2;
    assert_eq!(syscall(&mut st, 13, &[]), Event::Running);
    assert_eq!(st.a, -1);
    st.cis = 40;
    assert_eq!(syscall(&mut st, 13, &[]), Event::Running);
    assert_eq!(st.a, -1);
}

#[test]
fn supply_input_refuses_other_streams() {
    let mut st = BcplState::new();
    assert!(!st.supply_input(0, &b"x".to_vec(), false));
    assert!(!st.supply_input(2, &b"x".to_vec(), false));
    assert!(!st.supply_input(3, &b"x".to_vec(), false));
    assert!(st.supply_input(1, &b"x".to_vec(), true));
    assert!(st.supply_input(1, &b"y".to_vec(), false));
    assert_eq!(st.streams[1].data, b"xy".to_vec());
    assert!(!st.streams[1].live);
}

#[test]
fn readn_stores_number_and_terminator() {
    let mut st = with_code(&[0, 0]);
    assert!(st.supply_input(1, &b" -123;rest".to_vec(), false));
    assert_eq!(syscall(&mut st, 70, &[]), Event::Running);
    assert_eq!(st.a, -123);
    assert_eq!(st.image.m[71], b';' as i16);
    assert_eq!(st.streams[1].pos, 6);
    assert_eq!(syscall(&mut st, 13, &[]), Event::Running);
    assert_eq!(st.a, b'r' as i16);
}

#[test]
fn readn_waits_until_the_number_has_ended() {
    let mut st = with_code(&[0]);
    assert!(st.supply_input(1, &b"12".to_vec(), true));
    assert_eq!(syscall(&mut st, 70, &[]), Event::NeedInput);
    assert_eq!(st.streams[1].pos, 0);
    assert!(st.supply_input(1, &b"3\n".to_vec(), true));
    assert_eq!(st.step(), Event::Running);
    assert_eq!(st.a, 123);
    assert_eq!(st.image.m[71], 10);
}

#[test]
fn readn_at_end_of_stream() {
    let mut st = with_code(&[0]);
    assert!(st.supply_input(1, &b"12".to_vec(), false));
    assert_eq!(syscall(&mut st, 70, &[]), Event::Running);
    assert_eq!(st.a, 12);
    assert_eq!(st.image.m[71], -1);
}

#[test]
fn written_numbers_read_back_through_the_machine() {
    for n in [0i16, 1, -1, 99, -100, 12345, 32767, -32768] {
        let mut st = with_code(&[0, 0, 0]);
        assert_eq!(syscall(&mut st, 62, &[n]), Event::Running);
        assert_eq!(syscall(&mut st, 63, &[]), Event::Running);
        let text: Vec<u8> = st.take_output().iter().map(|r| r.1).collect();
        assert!(st.supply_input(1, &text, false));
        assert_eq!(syscall(&mut st, 70, &[]), Event::Running);
        assert_eq!(st.a, n);
    }
}

#[test]
fn output_goes_to_the_current_stream() {
    let mut st = with_code(&[0, 0, 0, 0, 0, 0]);
    let h = st.open_stream(true, Vec::new(), false);
    assert_eq!(h, 3);
    assert_eq!(syscall(&mut st, 14, &[65]), Event::Running);
    assert_eq!(syscall(&mut st, 12, &[3]), Event::Running);
    assert_eq!(syscall(&mut st, 14, &[66]), Event::Running);
    assert_eq!(syscall(&mut st, 64, &[]), Event::Running);
    assert_eq!(syscall(&mut st, 12, &[1]), Event::Running);
    assert_eq!(syscall(&mut st, 14, &[67]), Event::Running);
    assert_eq!(st.take_output(), vec![(2, 65), (3, 66), (3, 12)]);
    assert!(st.take_output().is_empty());
}

#[test]
fn wrch_writes_the_low_byte() {
    let mut st = with_code(&[0]);
    assert_eq!(syscall(&mut st, 14, &[0x1241]), Event::Running);
    assert_eq!(st.take_output(), vec![(2, 0x41)]);
}

#[test]
fn number_writers_through_the_machine() {
    let mut st = with_code(&[0, 0, 0, 0]);
    syscall(&mut st, 68, &[42, 5]);
    syscall(&mut st, 75, &[0x00AB, 4]);
    syscall(&mut st, 77, &[8, 3]);
    syscall(&mut st, 62, &[-9]);
    assert_eq!(printed(&mut st, 2), "   4200AB010-9");
}

#[test]
fn find_resolves_reserved_names() {
    let mut st = with_code(&[0, 0, 0]);
    let name = 1500usize;
    for (text, want) in [(&b"SYSIN"[..], 1), (&b"sysprint"[..], 2), (&b"SysIn"[..], 1)] {
        set_byte(&mut st.image.m, 2 * name, text.len() as u8);
        for (i, &c) in text.iter().enumerate() {
            set_byte(&mut st.image.m, 2 * name + 1 + i, c);
        }
        assert_eq!(syscall(&mut st, 42, &[name as i16]), Event::Running);
        assert_eq!(st.a, want);
    }
}

#[test]
fn find_asks_the_host_for_other_names() {
    let mut st = with_code(&[0, 0]);
    let name = 1500usize;
    set_byte(&mut st.image.m, 2 * name, 3);
    for (i, &c) in b"abc".iter().enumerate() {
        set_byte(&mut st.image.m, 2 * name + 1 + i, c);
    }
    assert_eq!(syscall(&mut st, 42, &[name as i16]), Event::FindInput(name));
    assert_eq!(st.a, 0);
    assert_eq!(st.cstr(name), Some(b"abc".to_vec()));
    let h = st.open_stream(false, b"q".to_vec(), false);
    st.answer_find(h);
    assert_eq!(st.a, 3);
    assert_eq!(st.streams[3].kind, StreamKind::Input);
    assert_eq!(syscall(&mut st, 41, &[name as i16]), Event::FindOutput(name));
    assert_eq!(st.a, 0);
}

#[test]
fn endread_closes_and_reverts() {
    let mut st = with_code(&[0, 0, 0]);
    assert_eq!(syscall(&mut st, 46, &[]), Event::Running);
    assert_eq!(st.cis, 1);
    let h = st.open_stream(false, b"q".to_vec(), false);
    st.cis = h;
    assert_eq!(syscall(&mut st, 46, &[]), Event::EndRead(h));
    assert_eq!(st.cis, 1);
    assert_eq!(st.streams[h].kind, StreamKind::Closed);
    st.cis = 99;
    assert_eq!(syscall(&mut st, 46, &[]), Event::Running);
    assert_eq!(st.cis, 99);
}

#[test]
fn endwrite_closes_and_reverts() {
    let mut st = with_code(&[0, 0]);
    assert_eq!(syscall(&mut st, 47, &[]), Event::Running);
    let h = st.open_stream(true, Vec::new(), false);
    st.cos = h;
    assert_eq!(syscall(&mut st, 47, &[]), Event::EndWrite(h));
    assert_eq!(st.cos, 2);
    assert_eq!(st.streams[h].kind, StreamKind::Closed);
}

#[test]
fn pipes_replace_the_defaults() {
    let mut st = BcplState::new();
    let i = st.open_stream(false, b"in".to_vec(), false);
    let o = st.open_stream(true, Vec::new(), false);
    st.pipeinput(i);
    st.pipeoutput(o);
    assert_eq!((st.cis, st.sysin, st.cos, st.sysprint), (3, 3, 4, 4));
}

#[test]
fn byte_calls() {
    let mut st = with_code(&[0, 0, 0]);
    st.image.m[2000] = 0x4241;
    assert_eq!(syscall(&mut st, 85, &[2000, 1]), Event::Running);
    assert_eq!(st.a, 0x42);
    assert_eq!(syscall(&mut st, 86, &[2000, 0, 0x7A]), Event::Running);
    assert_eq!(st.image.m[2000], 0x427A);
    assert_eq!(syscall(&mut st, 85, &[19899, 2]), Event::Fatal(Fault::BadAddress));
}

#[test]
fn pack_and_unpack_calls() {
    let mut st = with_code(&[0, 0]);
    for (i, w) in [3i16, 72, 73, 10].iter().enumerate() {
        st.image.m[2000 + i] = *w;
    }
    assert_eq!(syscall(&mut st, 66, &[2000, 2100]), Event::Running);
    assert_eq!(st.a, 1);
    assert_eq!(st.cstr(2100), Some(b"HI\n".to_vec()));
    assert_eq!(syscall(&mut st, 67, &[2100, 2200]), Event::Running);
    assert_eq!(&st.image.m[2200..2204], &[3, 72, 73, 10]);
}

#[test]
fn getvec_call_clears_the_block() {
    let mut st = with_code(&[0, 0, 0, 0]);
    for i in 19880..19900 {
        st.image.m[i] = 77;
    }
    assert_eq!(syscall(&mut st, 87, &[10]), Event::Running);
    assert_eq!(st.a, 19890);
    assert!(st.image.m[19890..19900].iter().all(|&w| w == 0));
    assert_eq!(st.image.m[19889], 77);
    assert_eq!(syscall(&mut st, 88, &[19890]), Event::Running);
    assert_eq!(st.a, 1);
    assert_eq!(syscall(&mut st, 88, &[19890]), Event::Running);
    assert_eq!(st.a, 0);
    assert_eq!(syscall(&mut st, 87, &[0]), Event::Running);
    assert_eq!(st.a, 0);
}

#[test]
fn changeco_switches_and_saves() {
    let mut st = with_code(&[0, 0]);
    let sp = st.sp;
    // g = 300 names the current block 310; the target block is 320
    st.image.m[300] = 310;
    st.image.m[320] = 5000;
    st.image.m[321] = 6000;
    assert_eq!(syscall(&mut st, 90, &[55, 320, 300]), Event::Running);
    assert_eq!(st.image.m[310], sp as i16);
    assert_eq!(st.image.m[311], (PROGSTART + 1) as i16);
    assert_eq!(st.image.m[300], 320);
    assert_eq!((st.sp, st.pc, st.a), (5000, 6000, 55));
    // nothing is written past the two saved words
    assert_eq!(st.image.m[327], 327);
    assert_eq!(st.image.m[312], 312);
}

#[test]
fn changeco_without_a_current_coroutine_saves_nothing() {
    let mut st = with_code(&[0]);
    st.image.m[300] = 0;
    st.image.m[320] = 5000;
    st.image.m[321] = 6000;
    assert_eq!(syscall(&mut st, 90, &[1, 320, 300]), Event::Running);
    assert_eq!(st.image.m[0], 0);
    assert_eq!(st.image.m[1], 1);
    assert_eq!(st.image.m[300], 320);
}

#[test]
fn changeco_resumes_where_the_coroutine_left() {
    let mut st = with_code(&[0]);
    let sp = st.sp;
    st.image.m[300] = 310;
    st.image.m[320] = 5000;
    st.image.m[321] = 6000;
    assert_eq!(syscall(&mut st, 90, &[1, 320, 300]), Event::Running);
    // the other coroutine switches back from its own place
    st.image.m[6000] = 6 | (3 << 8);
    st.image.m[5005] = 9;
    st.image.m[5006] = 310;
    st.image.m[5007] = 300;
    st.a = 90;
    assert_eq!(st.step(), Event::Running);
    assert_eq!((st.sp, st.pc as usize, st.a), (sp, PROGSTART + 1, 9));
    assert_eq!(st.image.m[300], 310);
    assert_eq!(st.image.m[320], 5000);
    assert_eq!(st.image.m[321], 6001);
}

#[test]
fn malformed_control_blocks_are_fatal() {
    let mut st = with_code(&[0]);
    st.image.m[300] = 0;
    st.image.m[320] = 100;
    st.image.m[321] = 6000;
    assert_eq!(syscall(&mut st, 90, &[1, 320, 300]), Event::Fatal(Fault::BadChangecoSp(100)));

    let mut st = with_code(&[0]);
    st.image.m[300] = 0;
    st.image.m[320] = 5000;
    st.image.m[321] = 19900;
    assert_eq!(syscall(&mut st, 90, &[1, 320, 300]), Event::Fatal(Fault::BadChangecoPc(19900)));

    let mut st = with_code(&[0]);
    assert_eq!(syscall(&mut st, 90, &[1, 0, 300]), Event::Fatal(Fault::BadChangecoC));
    let mut st = with_code(&[0]);
    assert_eq!(syscall(&mut st, 90, &[1, 320, 19900]), Event::Fatal(Fault::BadCurrco));
}
