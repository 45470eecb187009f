use jj_android_device::number::{
    dec_text, parse_i64, parse_u32, parse_u64, parse_usize, push_dec_int, push_dec_padded,
    push_padded,
};
use jj_android_device::report::event_line;
use jj_android_device::text::{chars_of, join, lines, string_of, trim, words};

#[test]
fn written_numbers_are_read_back() {
    for n in [0, 1, 9, 10, 99, 1000, u32::MAX as u64, u64::MAX - 1, u64::MAX] {
        assert_eq!(dec_text(n), n.to_string());
        assert_eq!(parse_u64(&chars_of(&dec_text(n))), Some(n));
    }
    for n in [0, 1, -1, 42, -42, i64::MAX, i64::MIN] {
        let mut s = String::new();
        push_dec_int(&mut s, n);
        assert_eq!(s, n.to_string());
        assert_eq!(parse_i64(&chars_of(&s)), Some(n));
    }
}

#[test]
fn numbers_are_read_as_std_reads_them() {
    for s in [
        "", "+", "-", "0", "-0", "+0", "007", "+7", "-7", "1_0", " 1", "1 ", "0x1", "１",
        "4294967295", "4294967296", "18446744073709551615", "18446744073709551616",
        "9223372036854775807", "9223372036854775808", "-9223372036854775808",
        "-9223372036854775809", "000000000000000000000000001",
    ] {
        let cs = chars_of(s);
        assert_eq!(parse_u64(&cs), s.parse::<u64>().ok(), "{s:?}");
        assert_eq!(parse_u32(&cs), s.parse::<u32>().ok(), "{s:?}");
        assert_eq!(parse_usize(&cs), s.parse::<usize>().ok(), "{s:?}");
        assert_eq!(parse_i64(&cs), s.parse::<i64>().ok(), "{s:?}");
    }
}

#[test]
fn padding() {
    let mut s = String::new();
    push_dec_padded(&mut s, 7, 3);
    push_dec_padded(&mut s, 1234, 3);
    assert_eq!(s, "0071234");
    let mut s = String::new();
    push_padded(&mut s, "ab", 4);
    push_padded(&mut s, "é", 2);
    push_padded(&mut s, "long", 2);
    assert_eq!(s, "ab  é long");
}

#[test]
fn text_is_cut_as_std_cuts_it() {
    for s in [
        "", " ", "a", " a ", "a b", "\ta\u{a0}b\u{3000}\n", "a\r\nb\n\nc", "a\n", "\n", "\r\n", "a\r",
        "x\u{2028}y z\u{85}", "\u{200b}a",
    ] {
        let cs = chars_of(s);
        assert_eq!(string_of(&cs), s);
        assert_eq!(string_of(trim(&cs)), s.trim(), "{s:?}");
        let ws: Vec<String> = words(&cs).into_iter().map(string_of).collect();
        assert_eq!(ws, s.split_whitespace().collect::<Vec<_>>(), "{s:?}");
        let ls: Vec<String> = lines(&cs).into_iter().map(string_of).collect();
        assert_eq!(ls, s.lines().collect::<Vec<_>>(), "{s:?}");
    }
    let parts = vec!["a".to_string(), String::new(), "b".to_string()];
    assert_eq!(join(&parts, ", "), parts.join(", "));
    assert_eq!(join(&vec![], ", "), "");
}

#[test]
fn an_event_has_one_line_feed() {
    for detail in ["", "a=1", "reason=x stderr=\"a\\nb\""] {
        let l = event_line("2026-07-22T10:57:08+08:00", "disconnect", detail);
        assert_eq!(l.matches('\n').count(), 1);
        assert!(l.ends_with('\n'));
    }
}
