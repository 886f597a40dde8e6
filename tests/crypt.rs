use cipher_segment::crypt::output_line;
use cipher_segment::{decrypt, encrypt, CliCipher};

struct Reverse;

impl CliCipher for Reverse {
    fn encrypt(&self, msg: &str) -> String {
        let mut s: String = msg.chars().rev().collect();
        s.push_str(" \n");
        s
    }

    fn decrypt(&self, msg: &str) -> String {
        let mut s: String = msg.chars().rev().collect();
        s.push('\t');
        s
    }
}

#[test]
fn encrypt_trims_trailing_space() {
    assert_eq!(encrypt(&Reverse, "abc"), "cba");
    assert_eq!(encrypt(&Reverse, " ab"), "ba");
}

#[test]
fn decrypt_trims_trailing_space() {
    assert_eq!(decrypt(&Reverse, "xyz"), "zyx");
    assert_eq!(decrypt(&Reverse, ""), "");
}

#[test]
fn output_line_keeps_leading_space() {
    assert_eq!(output_line("  hi there \r\n"), "  hi there");
    assert_eq!(output_line("none"), "none");
}

#[test]
fn output_line_trims_unicode_white_space() {
    assert_eq!(output_line("abc\u{2003}\u{3000}"), "abc");
    assert_eq!(output_line("a\u{200b}"), "a\u{200b}");
}
