use diffuse_daemon::text::{
    contains, decimal, decimal_i64, decimal_wide, hex_of, hexadecimal_padded, is_before, join,
    padded_left, padded_right, parse_number, starts_with, strip_prefix, to_lower, trim,
};

#[test]
fn numbers_are_written_as_std_writes_them() {
    for n in [0u64, 7, 10, 99, 100, 12345, u64::MAX] {
        assert_eq!(decimal(n), n.to_string());
        assert_eq!(hexadecimal_padded(n, 5), format!("{:05x}", n));
    }
    for n in [0i64, -1, 5, i64::MIN, i64::MAX] {
        assert_eq!(decimal_i64(n), n.to_string());
    }
    assert_eq!(decimal_wide(u128::MAX), u128::MAX.to_string());
    assert_eq!(hex_of(&[0, 0x9f]), "009f");
}

#[test]
fn numbers_are_read_as_std_reads_them() {
    for s in ["0", "7", "007", "65535", "65536", "+5", "-5", "", "+", "1a", " 1", "99999999999999999999999", "١"] {
        assert_eq!(parse_number(s, 65535).map(|n| n as u16), s.parse::<u16>().ok(), "{:?}", s);
        assert_eq!(parse_number(s, u64::MAX), s.parse::<u64>().ok(), "{:?}", s);
    }
}

#[test]
fn padding_counts_characters() {
    assert_eq!(padded_right("ä", 3), format!("{:<3}", "ä"));
    assert_eq!(padded_left("ä", ' ', 3), format!("{:>3}", "ä"));
    assert_eq!(padded_right("abcd", 3), "abcd");
    assert_eq!(padded_left("abcd", ' ', 3), "abcd");
}

#[test]
fn white_space_is_what_std_takes_as_such() {
    for s in ["  a b\t\n", "", " \u{a0}\u{3000}x\u{2028}", "\u{200b}x", "x\u{85}", "\u{feff}y\u{1680}"] {
        assert_eq!(trim(s), s.trim(), "{:?}", s);
    }
    for c in 0..0x3100u32 {
        if let Some(c) = char::from_u32(c) {
            let s = format!("{}x", c);
            assert_eq!(trim(&s), s.trim(), "{:?}", c);
        }
    }
}

#[test]
fn letters_are_lowered_in_ascii_only() {
    for s in ["AbZ", "ÄÖ", "", "a1_Z"] {
        assert_eq!(to_lower(s), s.to_ascii_lowercase());
    }
}

#[test]
fn texts_are_ordered_as_std_orders_them() {
    let all = ["", "a", "aa", "ab", "b", "é", "z", "\u{10000}", "\u{ffff}"];
    for a in all {
        for b in all {
            assert_eq!(is_before(a, b), a < b, "{:?} {:?}", a, b);
            assert_eq!(starts_with(a, b), a.starts_with(b));
            assert_eq!(contains(a, b), a.contains(b));
            assert_eq!(strip_prefix(a, b).as_deref(), a.strip_prefix(b));
        }
    }
}

#[test]
fn parts_are_joined_by_what_stands_between() {
    let parts: Vec<String> = vec!["a".to_string(), String::new(), "c".to_string()];
    assert_eq!(join(&parts, ", "), parts.join(", "));
    assert_eq!(join(&vec![], ", "), "");
}
