use icint::format::{decval, readn, writed, writehex, writen, writeoct, Number};
use icint::memory::{get_byte, packstring, read_string, set_byte, unpackstring};
use icint::word::{add16, div16, mul16, neg16, rem16, sub16, to_i16, to_u16, wrap16};
use icint::writef::{string_ok, writef};

fn text(f: impl Fn(&mut Vec<u8>)) -> String {
    let mut out = Vec::new();
    f(&mut out);
    String::from_utf8(out).unwrap()
}

fn put_string(m: &mut Vec<i16>, p: usize, s: &[u8]) {
    set_byte(m, 2 * p, s.len() as u8);
    for (i, &c) in s.iter().enumerate() {
        set_byte(m, 2 * p + 1 + i, c);
    }
}

#[test]
fn words_convert_bit_for_bit() {
    assert_eq!(to_u16(-1), 65535);
    assert_eq!(to_u16(-32768), 32768);
    assert_eq!(to_u16(7), 7);
    assert_eq!(to_i16(0xABCD), 0xABCDu16 as i16);
    assert_eq!(to_i16(32767), 32767);
    for u in [0u16, 1, 255, 256, 32767, 32768, 65535] {
        assert_eq!(to_u16(to_i16(u)), u);
    }
}

#[test]
fn arithmetic_wraps_around() {
    assert_eq!(wrap16(32768), -32768);
    assert_eq!(wrap16(-32769), 32767);
    assert_eq!(wrap16(65536 * 3 + 5), 5);
    assert_eq!(add16(32767, 1), -32768);
    assert_eq!(sub16(-32768, 1), 32767);
    assert_eq!(mul16(300, 300), (90000i32 as i16));
    assert_eq!(neg16(-32768), -32768);
    assert_eq!(neg16(5), -5);
}

#[test]
fn division_rounds_toward_zero() {
    assert_eq!(div16(7, 2), 3);
    assert_eq!(div16(-7, 2), -3);
    assert_eq!(div16(7, -2), -3);
    assert_eq!(div16(-7, -2), 3);
    assert_eq!(div16(-32768, -1), -32768);
    assert_eq!(rem16(7, 2), 1);
    assert_eq!(rem16(-7, 2), -1);
    assert_eq!(rem16(7, -2), 1);
    assert_eq!(rem16(-7, -2), -1);
    assert_eq!(rem16(-32768, -1), 0);
}

#[test]
fn bytes_are_little_endian_within_a_word() {
    let mut m = vec![0i16; 8];
    m[3] = 0x1234;
    assert_eq!(get_byte(&m, 6), 0x34);
    assert_eq!(get_byte(&m, 7), 0x12);
    set_byte(&mut m, 6, 0xFF);
    assert_eq!(m[3], 0x12FF);
    set_byte(&mut m, 7, 0x80);
    assert_eq!(m[3], 0x80FFu16 as i16);
    assert_eq!(get_byte(&m, 7), 0x80);
    assert_eq!(get_byte(&m, 6), 0xFF);
}

#[test]
fn packstring_packs_and_returns_last_word_index() {
    let mut m = vec![0i16; 64];
    m[10] = 3;
    m[11] = 72;
    m[12] = 73;
    m[13] = 10;
    m[21] = 0x7777;
    let r = packstring(&mut m, 10, 20);
    assert_eq!(r, 1);
    assert_eq!(read_string(&m, 20), b"HI\n".to_vec());
    assert_eq!(m[20], (72 << 8) | 3);
    assert_eq!(m[21], (10 << 8) | 73);
}

#[test]
fn packstring_clears_the_padding_byte() {
    let mut m = vec![0i16; 64];
    m[10] = 2;
    m[11] = 65;
    m[12] = 66;
    m[21] = 0x7777;
    assert_eq!(packstring(&mut m, 10, 20), 1);
    assert_eq!(m[20], (65 << 8) | 2);
    assert_eq!(m[21], 66);
}

#[test]
fn unpack_after_pack_gives_the_bytes_back() {
    for len in [0usize, 1, 2, 7, 254, 255] {
        let mut m = vec![0i16; 1024];
        m[10] = len as i16;
        for i in 1..=len {
            m[10 + i] = ((i * 37 + 11) % 256) as i16;
        }
        let before: Vec<i16> = m[10..=10 + len].to_vec();
        packstring(&mut m, 10, 300);
        unpackstring(&mut m, 300, 600);
        assert_eq!(&m[600..=600 + len], &before[..]);
    }
}

#[test]
fn writehex_emits_exactly_d_digits() {
    assert_eq!(text(|o| writehex(o, 0xABCD, 4)), "ABCD");
    assert_eq!(text(|o| writehex(o, 0xABCD, 2)), "CD");
    assert_eq!(text(|o| writehex(o, 0x1F, 4)), "001F");
    assert_eq!(text(|o| writehex(o, 0x1F, 0)), "F");
    assert_eq!(text(|o| writehex(o, 0x1F, -3)), "F");
    assert_eq!(text(|o| writehex(o, 0xFFFF, 16)), "000000000000FFFF");
    assert_eq!(text(|o| writehex(o, 9, 1)), "9");
    assert_eq!(text(|o| writehex(o, 10, 1)), "A");
}

#[test]
fn writehex_reads_back_where_it_fits() {
    for d in 1i16..=16 {
        for u in [0u16, 1, 9, 15, 16, 255, 256, 4095, 4096, 0xABCD, 0xFFFF] {
            let s = text(|o| writehex(o, u, d));
            assert_eq!(s.len(), d as usize);
            if d >= 4 || (u as u32) < 16u32.pow(d as u32) {
                assert_eq!(u16::from_str_radix(&s, 16).unwrap(), u);
            }
        }
    }
}

#[test]
fn writeoct_emits_octal() {
    assert_eq!(text(|o| writeoct(o, 8, 3)), "010");
    assert_eq!(text(|o| writeoct(o, 0xFFFF, 6)), "177777");
    assert_eq!(text(|o| writeoct(o, 0o1234, 2)), "34");
    assert_eq!(text(|o| writeoct(o, 7, 0)), "7");
    assert_eq!(text(|o| writeoct(o, 0xFFFF, 9)), "000177777");
    assert_eq!(text(|o| writeoct(o, 0xFFFF, 5)), "77777");
}

#[test]
fn very_wide_numbers_are_padded_with_zeros() {
    let s = text(|o| writehex(o, 0xBEEF, 32767));
    assert_eq!(s.len(), 32767);
    assert!(s.ends_with("0BEEF"));
    assert!(s[..32763].bytes().all(|c| c == b'0'));
    let s = text(|o| writeoct(o, 0o123456, 30000));
    assert_eq!(s.len(), 30000);
    assert!(s.ends_with("0123456"));
}

#[test]
fn writed_pads_on_the_left() {
    assert_eq!(text(|o| writed(o, 42, 3)), " 42");
    assert_eq!(text(|o| writed(o, 5, 3)), "  5");
    assert_eq!(text(|o| writed(o, -5, 4)), "  -5");
    assert_eq!(text(|o| writed(o, 12345, 3)), "12345");
    assert_eq!(text(|o| writed(o, 7, 0)), "7");
    assert_eq!(text(|o| writed(o, 7, -4)), "7");
    assert_eq!(text(|o| writed(o, -32768, 8)), "  -32768");
    assert_eq!(text(|o| writed(o, 0, 2)), " 0");
}

#[test]
fn writen_prints_signed_decimal() {
    assert_eq!(text(|o| writen(o, 0)), "0");
    assert_eq!(text(|o| writen(o, -1)), "-1");
    assert_eq!(text(|o| writen(o, 32767)), "32767");
    assert_eq!(text(|o| writen(o, -32768)), "-32768");
}

#[test]
fn writen_appends_to_what_is_there() {
    let mut out = b"n=".to_vec();
    writen(&mut out, 17);
    assert_eq!(out, b"n=17".to_vec());
}

#[test]
fn decval_reads_base_36() {
    assert_eq!(decval(b'0'), 0);
    assert_eq!(decval(b'9'), 9);
    assert_eq!(decval(b'A'), 10);
    assert_eq!(decval(b'Z'), 35);
    assert_eq!(decval(b'a'), 0);
    assert_eq!(decval(b' '), 0);
}

#[test]
fn readn_skips_blanks_and_stores_terminator() {
    let s = b"  \t\n 123x".to_vec();
    let n = readn(&s, 0);
    assert_eq!(n, Number { value: 123, term: b'x' as i16, next: s.len(), ran_out: false });
}

#[test]
fn readn_takes_signs() {
    assert_eq!(readn(&b"-45 ".to_vec(), 0).value, -45);
    assert_eq!(readn(&b"+45 ".to_vec(), 0).value, 45);
    assert_eq!(readn(&b"-x".to_vec(), 0), Number { value: 0, term: b'x' as i16, next: 2, ran_out: false });
}

#[test]
fn readn_at_the_end_of_input() {
    assert_eq!(readn(&b"".to_vec(), 0), Number { value: 0, term: -1, next: 0, ran_out: true });
    assert_eq!(readn(&b"17".to_vec(), 0), Number { value: 17, term: -1, next: 2, ran_out: true });
    assert_eq!(readn(&b"ab 9\r".to_vec(), 2), Number { value: 9, term: 10, next: 5, ran_out: false });
}

#[test]
fn readn_wraps_on_overflow() {
    assert_eq!(readn(&b"65536;".to_vec(), 0).value, 0);
    assert_eq!(readn(&b"32768;".to_vec(), 0).value, -32768);
    assert_eq!(readn(&b"70000;".to_vec(), 0).value, (70000i32 as i16));
}

#[test]
fn readn_recovers_what_writen_wrote() {
    let mut n: i32 = -32768;
    while n <= 32767 {
        let mut s = Vec::new();
        writen(&mut s, n as i16);
        s.push(b'\n');
        let r = readn(&s, 0);
        assert_eq!(r.value, n as i16);
        assert_eq!(r.term, 10);
        assert_eq!(r.next, s.len());
        n += if n > -100 && n < 100 { 1 } else { 97 };
    }
    let mut s = Vec::new();
    writen(&mut s, 32767);
    assert_eq!(readn(&s, 0).value, 32767);
}

#[test]
fn writef_renders_directives() {
    let mut m = vec![0i16; 256];
    put_string(&mut m, 100, b"x=%I3 y=%X4\n");
    m[50] = 100;
    m[51] = 42;
    m[52] = 0xABCDu16 as i16;
    assert_eq!(writef(&m, 50), Some(b"x= 42 y=ABCD\n".to_vec()));
}

#[test]
fn writef_handles_every_directive() {
    let mut m = vec![0i16; 256];
    put_string(&mut m, 100, b"%S|%C|%N|%O3|%IA|%%|%Q");
    put_string(&mut m, 120, b"abc");
    m[50] = 100;
    m[51] = 120;
    m[52] = b'z' as i16;
    m[53] = -7;
    m[54] = 8;
    m[55] = 5;
    assert_eq!(writef(&m, 50), Some(b"abc|z|-7|010|         5|%|Q".to_vec()));
}

#[test]
fn writef_fails_outside_the_image() {
    let mut m = vec![0i16; 64];
    m[10] = 200;
    assert_eq!(writef(&m, 10), None);
    assert_eq!(writef(&m, 64), None);
    put_string(&mut m, 20, b"%S");
    m[10] = 20;
    m[11] = 9999;
    assert_eq!(writef(&m, 10), None);
    assert!(string_ok(&m, 20));
    assert!(!string_ok(&m, 64));
}
