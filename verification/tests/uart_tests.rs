use freertos::uart::{print_rate, uart_putdec, uart_putdec_sized, uart_puthex, uart_puts};

fn text(out: &[u8]) -> String {
    String::from_utf8(out.to_vec()).unwrap()
}

#[test]
fn puts_appends_bytes() {
    let mut out = Vec::new();
    uart_puts(&mut out, "[TaskB] ");
    uart_puts(&mut out, "tick\n");
    assert_eq!(text(&out), "[TaskB] tick\n");
}

#[test]
fn puthex_writes_sixteen_digits() {
    let mut out = Vec::new();
    uart_puthex(&mut out, 0xDEAD_BEEF);
    assert_eq!(text(&out), "00000000DEADBEEF");
    out.clear();
    uart_puthex(&mut out, u64::MAX);
    assert_eq!(text(&out), "FFFFFFFFFFFFFFFF");
    out.clear();
    uart_puthex(&mut out, 0);
    assert_eq!(text(&out), "0000000000000000");
}

#[test]
fn putdec_writes_decimal() {
    let mut out = Vec::new();
    uart_putdec(&mut out, 0);
    assert_eq!(text(&out), "0");
    out.clear();
    uart_putdec(&mut out, 1958);
    assert_eq!(text(&out), "1958");
    out.clear();
    uart_putdec(&mut out, 10);
    assert_eq!(text(&out), "10");
    out.clear();
    uart_putdec(&mut out, 9_999_999_999_999_999_999);
    assert_eq!(text(&out), "9999999999999999999");
}

#[test]
fn putdec_round_trips() {
    for v in [1u64, 7, 42, 100, 65535, 1145141919, 1_000_000_000_000] {
        let mut out = Vec::new();
        uart_putdec(&mut out, v);
        assert_eq!(text(&out).parse::<u64>().unwrap(), v);
        assert_ne!(out[0], b'0');
    }
}

#[test]
fn putdec_sized_pads_with_zeros() {
    let mut out = Vec::new();
    uart_putdec_sized(&mut out, 42, 6);
    assert_eq!(text(&out), "000042");
    out.clear();
    uart_putdec_sized(&mut out, 0, 6);
    assert_eq!(text(&out), "0");
    out.clear();
    uart_putdec_sized(&mut out, 42, 0);
    assert_eq!(text(&out), "");
    out.clear();
    uart_putdec_sized(&mut out, 1234, 4);
    assert_eq!(text(&out), "1234");
}

#[test]
fn print_rate_writes_percentage() {
    let mut out = Vec::new();
    print_rate(&mut out, 1, 3);
    assert_eq!(text(&out), "1 / 3 (33.333333%)\n");
    out.clear();
    print_rate(&mut out, 3, 4);
    assert_eq!(text(&out), "3 / 4 (75.0%)\n");
    out.clear();
    print_rate(&mut out, 2, 3);
    assert_eq!(text(&out), "2 / 3 (66.666666%)\n");
}
