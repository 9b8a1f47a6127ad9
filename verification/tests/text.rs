use mathset::text::{decimal_string, human};

#[test]
fn human_bytes() {
    assert_eq!(human(0), "0 B");
    assert_eq!(human(512), "512 B");
    assert_eq!(human(1023), "1023 B");
    assert_eq!(human(1024), "1.0 KB");
    assert_eq!(human(1536), "1.5 KB");
    assert_eq!(human(1048575), "1024.0 KB");
    assert_eq!(human(1048576), "1.0 MB");
    assert_eq!(human(5 * 1048576 + 524288), "5.5 MB");
}

#[test]
fn human_ties_go_to_even_tenths() {
    // 1280 / 1024 = 1.25 exactly: the tie goes to 1.2
    assert_eq!(human(1280), "1.2 KB");
    // 1792 / 1024 = 1.75 exactly: the tie goes to 1.8
    assert_eq!(human(1792), "1.8 KB");
}

#[test]
fn human_agrees_with_float_formatting() {
    let mut b: u64 = 0;
    while b < 40_000_000 {
        let expect = if b < 1024 {
            format!("{b} B")
        } else if b < 1024 * 1024 {
            format!("{:.1} KB", b as f64 / 1024.0)
        } else {
            format!("{:.1} MB", b as f64 / (1024.0 * 1024.0))
        };
        assert_eq!(human(b), expect, "{b}");
        b = b * 3 / 2 + 1 + (b % 7);
    }
    for b in 1000u64..5000 {
        assert_eq!(human(b), if b < 1024 { format!("{b} B") } else { format!("{:.1} KB", b as f64 / 1024.0) });
    }
}

#[test]
fn decimal_digits() {
    assert_eq!(decimal_string(0), "0");
    assert_eq!(decimal_string(7), "7");
    assert_eq!(decimal_string(10), "10");
    assert_eq!(decimal_string(u64::MAX), u64::MAX.to_string());
}
