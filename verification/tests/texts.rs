//! Text: trimming, numerals, and reading numbers.
use sprout::bytes::{equal, holds, split_at_each};
use sprout::text::{join_words, parse_i32, same_text, take_before, to_decimal, to_hex, trim, white_space};

#[test]
fn white_space_agrees() {
    for u in 0..=0x10ffffu32 {
        if let Some(c) = char::from_u32(u) {
            assert_eq!(white_space(c), c.is_whitespace(), "{u:x}");
        }
    }
}

#[test]
fn trimming_agrees() {
    for s in ["", " ", "a", " a", "a ", " \n a b\t\u{3000}", "\u{85}x\u{a0}", "x", " \t\r\n", "\u{200b}x", "ü ß "] {
        assert_eq!(trim(s), s.trim(), "{s:?}");
    }
}

#[test]
fn numerals_agree() {
    for n in [0, 1, 9, 10, 15, 16, 99, 255, 256, 4096, 0xdead_beef, u64::MAX] {
        assert_eq!(to_decimal(n), format!("{n}"));
        assert_eq!(to_hex(n, 8), format!("{n:08x}"));
        assert_eq!(to_hex(n, 0), format!("{n:x}"));
    }
}

#[test]
fn reading_numbers_agrees() {
    for s in [
        "", "0", "7", "-7", "+7", "-", "+", "--7", "1a", "a1", " 1", "1 ", "2147483647", "2147483648", "-2147483648",
        "-2147483649", "00012", "99999999999999999999999", "-0", "٣",
    ] {
        assert_eq!(parse_i32(s), s.parse::<i32>().ok(), "{s:?}");
    }
    for n in [0, 1, 10, 4711, i32::MAX as u64] {
        assert_eq!(parse_i32(&to_decimal(n)), Some(n as i32));
    }
}

#[test]
fn cutting_up() {
    assert_eq!(take_before("42.v1.2", '.'), "42");
    assert_eq!(take_before(".x", '.'), "");
    assert_eq!(take_before("none", '.'), "none");
    assert_eq!(take_before("", '.'), "");
    assert_eq!(split_at_each(b"", 0), vec![b"".to_vec()]);
    assert_eq!(split_at_each(b"a\0b\0", 0), vec![b"a".to_vec(), b"b".to_vec(), b"".to_vec()]);
}

#[test]
fn comparing() {
    assert!(equal(b"", b""));
    assert!(equal(b"ab", b"ab"));
    assert!(!equal(b"ab", b"aB"));
    assert!(!equal(b"ab", b"abc"));
    assert!(same_text("rm", "rm"));
    assert!(!same_text("rm", "rn"));
    assert!(holds(&vec![b"a".to_vec(), b"b".to_vec()], b"b"));
    assert!(!holds(&vec![b"a".to_vec()], b""));
}

#[test]
fn joining_words() {
    assert_eq!(join_words(&vec![]), "");
    assert_eq!(join_words(&vec!["one".to_string()]), "one");
    assert_eq!(join_words(&vec!["worktree".to_string(), "add".to_string(), "x y".to_string()]), "worktree add x y");
}
