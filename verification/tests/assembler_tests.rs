use icint::assembler::{rch, rdn, skip, AsmError, Image};
use icint::machine::BcplState;
use icint::word::{LABV, LABVCOUNT, PROGSTART};

fn assembled(src: &str) -> (Image, Result<(), AsmError>) {
    let mut st = BcplState::new();
    st.init();
    let r = st.loadcode(&src.as_bytes().to_vec());
    (st.image, r)
}

fn code(src: &str) -> Vec<i16> {
    let (im, r) = assembled(src);
    assert_eq!(r, Ok(()));
    im.m[PROGSTART + 3..im.lomem].to_vec()
}

#[test]
fn init_writes_the_bootstrap() {
    let mut st = BcplState::new();
    st.init();
    for i in 0..PROGSTART {
        assert_eq!(st.image.m[i], i as i16);
    }
    // load literal 1 indirect; call with d = 2; halt
    assert_eq!(st.image.m[PROGSTART], (1 << 8) | 8);
    assert_eq!(st.image.m[PROGSTART + 1], (2 << 8) | 6);
    assert_eq!(st.image.m[PROGSTART + 2], (22 << 8) | 7);
    assert_eq!(st.image.lomem, PROGSTART + 3);
}

#[test]
fn rch_skips_comments() {
    let s = b"A/ note\n\n\nB".to_vec();
    assert_eq!(rch(&s, 0), 10);
    assert_eq!(rch(&s, 10), 11);
    assert_eq!(rch(&s, 11), 11);
    let t = b"/ one\n/ two\nX".to_vec();
    assert_eq!(skip(&t, 0), 12);
    let u = b"A/ to the end".to_vec();
    assert_eq!(rch(&u, 0), u.len());
}

#[test]
fn rdn_reads_signed_decimal() {
    assert_eq!(rdn(&b"123 ".to_vec(), 0), (3, 123));
    assert_eq!(rdn(&b"-17X".to_vec(), 0), (3, -17));
    assert_eq!(rdn(&b"X".to_vec(), 0), (0, 0));
    assert_eq!(rdn(&b"70000".to_vec(), 0), (5, 70000i32 as i16));
}

#[test]
fn short_form_holds_operand_in_high_byte() {
    assert_eq!(code("L5"), vec![(5 << 8) | 0]);
    assert_eq!(code("S255"), vec![((255u16 << 8) | 1) as i16]);
    assert_eq!(code("A0 J1 T2 F3 K4 X22"), vec![2, (1 << 8) | 3, (2 << 8) | 4, (3 << 8) | 5, (4 << 8) | 6, (22 << 8) | 7]);
}

#[test]
fn long_form_for_operands_that_do_not_fit() {
    assert_eq!(code("L256"), vec![32, 256]);
    assert_eq!(code("A-1"), vec![2 | 32, -1]);
    assert_eq!(code("L300 S301"), vec![32, 300, 1 | 32, 301]);
}

#[test]
fn modifiers_set_their_bits() {
    assert_eq!(code("LI7"), vec![(7 << 8) | 8]);
    assert_eq!(code("LP7"), vec![(7 << 8) | 16]);
    assert_eq!(code("LIP7"), vec![(7 << 8) | 24]);
    assert_eq!(code("LIPG7"), vec![(7 << 8) | 24]);
    assert_eq!(code("SG7"), vec![(7 << 8) | 1]);
    assert_eq!(code("SIP300"), vec![1 | 8 | 16 | 32, 300]);
}

#[test]
fn blanks_dollars_and_comments_are_skipped() {
    assert_eq!(code("$ L1 / comment L9\n\n $ L2\r\n"), vec![1 << 8, 2 << 8]);
    assert_eq!(code("/ only a comment"), Vec::<i16>::new());
    assert_eq!(code(""), Vec::<i16>::new());
}

#[test]
fn character_data_packs_low_byte_first() {
    assert_eq!(code("C3 C72 C73 C10"), vec![(72 << 8) | 3, (10 << 8) | 73]);
    assert_eq!(code("C65"), vec![65]);
    assert_eq!(code("C65 D7 C66"), vec![65, 7, 66]);
}

#[test]
fn data_words_hold_numbers_or_labels() {
    assert_eq!(code("D5 D-2 D300"), vec![5, -2, 300]);
    // label 4 is defined at the second word
    assert_eq!(code("D1 4 D2 DL4 Z"), vec![1, 2, (PROGSTART + 4) as i16]);
}

#[test]
fn backward_reference_adds_the_address() {
    let at = (PROGSTART + 3) as i16;
    assert_eq!(code("7 L1 JL7 Z"), vec![1 << 8, 3 | 32, at]);
}

#[test]
fn forward_references_are_patched_through_the_chain() {
    let target = (PROGSTART + 3 + 6) as i16;
    assert_eq!(code("JL9 TL9 DL9 DL9 9 X22 Z"), vec![3 | 32, target, 4 | 32, target, target, target, (22 << 8) | 7]);
}

#[test]
fn chain_head_is_kept_in_the_table_until_definition() {
    let (im, r) = assembled("JL9 DL9");
    assert_eq!(r, Err(AsmError::UnsetLabel(9)));
    assert_eq!(im.m[LABV + 9], (PROGSTART + 5) as i16);
    assert_eq!(im.m[PROGSTART + 5], (PROGSTART + 4) as i16);
    assert_eq!(im.m[PROGSTART + 4], 0);
}

#[test]
fn global_slot_gets_the_label() {
    let (im, r) = assembled("2 X22 G1L2 G150L3 3 Z");
    assert_eq!(r, Ok(()));
    assert_eq!(im.m[1], (PROGSTART + 3) as i16);
    assert_eq!(im.m[150], (PROGSTART + 4) as i16);
}

#[test]
fn unit_end_clears_the_table() {
    let (im, r) = assembled("1 L1 2 L2 JL1 Z 1 L3 Z");
    assert_eq!(r, Ok(()));
    for n in 0..LABVCOUNT {
        assert_eq!(im.m[LABV + n], 0);
    }
    assert_eq!(im.lomem, PROGSTART + 3 + 5);
}

#[test]
fn duplicate_label_is_an_error() {
    assert_eq!(assembled("5 L1 5 L2").1, Err(AsmError::DuplicateLabel(5)));
}

#[test]
fn unset_label_is_an_error_at_unit_end() {
    assert_eq!(assembled("JL7 Z").1, Err(AsmError::UnsetLabel(7)));
    assert_eq!(assembled("JL7 JL3 Z").1, Err(AsmError::UnsetLabel(3)));
}

#[test]
fn bad_character_is_an_error() {
    assert_eq!(assembled("L1 Q").1, Err(AsmError::BadCh(b'Q' as i16)));
    assert_eq!(assembled("l1").1, Err(AsmError::BadCh(b'l' as i16)));
}

#[test]
fn bad_code_is_an_error() {
    let p = (PROGSTART + 3) as i16;
    assert_eq!(assembled("G5 7").1, Err(AsmError::BadCode(p)));
    assert_eq!(assembled("JL500").1, Err(AsmError::BadCode(p)));
    assert_eq!(assembled("600 L1").1, Err(AsmError::BadCode(p)));
    assert_eq!(assembled("G-1L2").1, Err(AsmError::BadCode(p)));
}

#[test]
fn image_full_is_an_error() {
    let mut src = String::new();
    for _ in 0..(LABV - PROGSTART - 3) {
        src.push_str("D1 ");
    }
    let (im, r) = assembled(&src);
    assert_eq!(r, Ok(()));
    assert_eq!(im.lomem, LABV);
    src.push_str("D1 ");
    assert_eq!(assembled(&src).1, Err(AsmError::BadCode(LABV as i16)));
}

#[test]
fn units_are_assembled_one_after_another() {
    let mut st = BcplState::new();
    st.init();
    assert_eq!(st.loadcode(&b"1 L1 JL1 Z".to_vec()), Ok(()));
    let first_end = st.image.lomem;
    assert_eq!(st.loadcode(&b"1 L2 JL1 Z".to_vec()), Ok(()));
    assert_eq!(st.image.m[first_end], 2 << 8);
    assert_eq!(st.image.m[first_end + 2], first_end as i16);
}

#[test]
fn a_failed_directive_leaves_the_image_as_it_was() {
    let mut st = BcplState::new();
    st.init();
    let r = st.loadcode(&b"L1 L2 5 L3 5 L4".to_vec());
    assert_eq!(r, Err(AsmError::DuplicateLabel(5)));
    assert_eq!(st.image.lomem, PROGSTART + 6);
    assert_eq!(&st.image.m[PROGSTART + 3..PROGSTART + 6], &[1 << 8, 2 << 8, 3 << 8]);
    assert_eq!(st.image.m[LABV + 5], -((PROGSTART + 5) as i16));
}

#[test]
fn labels_are_settled_after_a_final_unit_end() {
    for src in ["JL1 1 L2 DL1 Z", "JL1 1 Z / done\n\n $ ", "Z", "1 2 3 Z\n"] {
        let (im, r) = assembled(src);
        assert_eq!(r, Ok(()));
        for n in 0..LABVCOUNT {
            assert!(im.m[LABV + n] <= 0);
        }
    }
}

#[test]
fn the_end_of_the_source_ends_the_unit() {
    // a label that is referenced and never defined
    assert_eq!(assembled("JL1").1, Err(AsmError::UnsetLabel(1)));
    assert_eq!(assembled("JL5").1, Err(AsmError::UnsetLabel(5)));
    assert_eq!(assembled("1 L1 Z JL1").1, Err(AsmError::UnsetLabel(1)));
    assert_eq!(assembled("DL7 DL3 / no end").1, Err(AsmError::UnsetLabel(3)));
    // defined labels are forgotten without a unit end
    let (im, r) = assembled("JL1 1 L2 DL1");
    assert_eq!(r, Ok(()));
    for n in 0..LABVCOUNT {
        assert_eq!(im.m[LABV + n], 0);
    }
    assert_eq!(im.m[PROGSTART + 4], (PROGSTART + 5) as i16);
    assert_eq!(im.m[PROGSTART + 6], (PROGSTART + 5) as i16);
}

#[test]
fn close_unit_checks_and_clears() {
    let mut st = BcplState::new();
    st.init();
    st.image.m[LABV + 4] = -500;
    st.image.m[LABV + 9] = 450;
    st.image.m[LABV + 12] = 460;
    st.image.cp = 1;
    assert_eq!(st.image.close_unit(), Err(AsmError::UnsetLabel(9)));
    assert_eq!(st.image.m[LABV + 4], -500);
    assert_eq!(st.image.cp, 1);
    st.image.m[LABV + 9] = 0;
    st.image.m[LABV + 12] = -460;
    assert_eq!(st.image.close_unit(), Ok(()));
    assert_eq!(st.image.m[LABV + 4], 0);
    assert_eq!(st.image.m[LABV + 12], 0);
    assert_eq!(st.image.cp, 0);
}

#[test]
fn every_reference_holds_the_address_of_its_label() {
    // forward and backward references, in instructions and in data, over two units
    let src = "JL1 DL2 1 L7 TL1 2 DL1 DL2 G1L1 Z FL1 1 DL1 Z";
    let (im, r) = assembled(src);
    assert_eq!(r, Ok(()));
    let b = PROGSTART + 3;
    let one = (b + 3) as i16;
    let two = (b + 6) as i16;
    let m = &im.m;
    assert_eq!(m[b + 1], one);
    assert_eq!(m[b + 2], two);
    assert_eq!(m[b + 5], one);
    assert_eq!(m[b + 6], one);
    assert_eq!(m[b + 7], two);
    assert_eq!(m[1], one);
    let again = (b + 10) as i16;
    assert_eq!(m[b + 9], again);
    assert_eq!(m[b + 10], again);
    assert_eq!(im.lomem, b + 11);
}

#[test]
fn emit_position_counts_the_words() {
    // 1 + 2 + 2 + 1 + 1 (two characters) + 1 (a third) + 0 + 0
    let (im, r) = assembled("L1 L300 JL4 D9 C1 C2 C3 4 G7L4 Z");
    assert_eq!(r, Ok(()));
    assert_eq!(im.lomem, PROGSTART + 3 + 8);
}

#[test]
fn a_global_slot_wired_before_the_definition_is_patched_too() {
    let (im, r) = assembled("JL5 G1L5 DL5 G2L5 5 X22 Z");
    assert_eq!(r, Ok(()));
    let at = (PROGSTART + 3 + 3) as i16;
    assert_eq!(im.m[PROGSTART + 4], at);
    assert_eq!(im.m[PROGSTART + 5], at);
    assert_eq!(im.m[1], at);
    assert_eq!(im.m[2], at);
}

#[test]
fn a_global_slot_inside_the_code_overwrites_it() {
    // the data word at 405 refers to label 5 at 404, until slot 405 is wired to label 6
    let (im, r) = assembled("5 D7 DL5 6 G405L6 Z");
    assert_eq!(r, Ok(()));
    assert_eq!(im.m[PROGSTART + 4], (PROGSTART + 5) as i16);
}
