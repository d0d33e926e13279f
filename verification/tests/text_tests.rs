use optim::text::{chars_of, decode_utf16_lossy_exec, lines_of, lowercase, parse_unsigned_chars, trim_chars};

fn chars(s: &str) -> Vec<char> {
    s.chars().collect()
}

#[test]
fn lines_like_std() {
    for text in ["", "a", "a\n", "a\r\nb", "a\rb\r", "\n\n", "x\r\n\r\ny"] {
        let got: Vec<String> = lines_of(&chars_of(text)).iter().map(|l| l.iter().collect()).collect();
        let want: Vec<String> = text.lines().map(String::from).collect();
        assert_eq!(got, want, "{text:?}");
    }
}

#[test]
fn trim_like_std() {
    for text in ["  a b  ", "\u{3000}x\u{85}", "", "   ", "\u{200B}z"] {
        let got: String = trim_chars(&chars(text)).iter().collect();
        assert_eq!(got, text.trim(), "{text:?}");
    }
}

#[test]
fn numbers_like_std() {
    for text in ["0", "+5", "007", "", "+", "-1", "18446744073709551615", "18446744073709551616", "1 2"] {
        assert_eq!(parse_unsigned_chars(&chars(text), 10, u64::MAX), text.parse::<u64>().ok(), "{text:?}");
        assert_eq!(
            parse_unsigned_chars(&chars(text), 10, u32::MAX as u64),
            text.parse::<u32>().ok().map(u64::from),
            "{text:?}"
        );
    }
    for text in ["ff", "+1B1B1D", "Gg", "ffffffff", "100000000"] {
        assert_eq!(
            parse_unsigned_chars(&chars(text), 16, u32::MAX as u64),
            u32::from_str_radix(text, 16).ok().map(u64::from),
            "{text:?}"
        );
    }
}

#[test]
fn utf16_like_std() {
    let cases: [&[u16]; 4] = [&[0x61, 0xD83D, 0xDE00], &[0xD800], &[0xDC00, 0x62], &[0xD800, 0xD800, 0xDC00]];
    for units in cases {
        let got: String = decode_utf16_lossy_exec(units).iter().collect();
        assert_eq!(got, String::from_utf16_lossy(units));
    }
}

#[test]
fn ascii_lowercases_letter_by_letter() {
    assert_eq!(lowercase(&chars("BG = Dracula")), chars("bg = dracula"));
    assert_eq!(lowercase(&chars("ÄB")), chars("äb"));
}
