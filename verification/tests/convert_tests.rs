use binarr::process_bin_file;

/// Decode helper for round-trip checks: read every `0xHH` token back.
fn decode_tokens(text: &str) -> Vec<u8> {
    let chars: Vec<char> = text.chars().collect();
    let mut out: Vec<u8> = Vec::new();
    let mut i = 0;
    while i + 3 < chars.len() {
        if chars[i] == '0' && chars[i + 1] == 'x' {
            let hi = chars[i + 2].to_digit(16).unwrap();
            let lo = chars[i + 3].to_digit(16).unwrap();
            out.push((hi * 16 + lo) as u8);
            i += 4;
        } else {
            i += 1;
        }
    }
    out
}

#[test]
fn linewidth() {
    let bytes: Vec<u8> = (0u8..=255).cycle().take(1000).collect();
    let line_width = 50;
    let mut line_width_success = true;
    let generated_string = process_bin_file(&bytes, line_width);
    for line in generated_string.lines() {
        if line.len() > line_width {
            line_width_success = false;
            break;
        }
    }
    assert_eq!(line_width_success, true);
}

#[test]
fn empty_input() {
    assert_eq!(process_bin_file(&[], 80), "static const char[] BINARRAY = {}");
    assert_eq!(process_bin_file(&[], 50), "static const char[] BINARRAY = {}");
    assert_eq!(process_bin_file(&[], 1000), "static const char[] BINARRAY = {}");
}

#[test]
fn three_bytes_at_width_80() {
    let out = process_bin_file(&[0x00, 0x01, 0xff], 80);
    assert_eq!(out, "static const char[] BINARRAY = {\n    0x00, 0x01, 0xff,}");
}

#[test]
fn header_and_closing_brace() {
    for width in [50, 80, 200] {
        for bytes in [vec![], vec![7u8], vec![1u8, 2, 3, 4, 5, 6, 7, 8, 9, 10]] {
            let out = process_bin_file(&bytes, width);
            assert!(out.starts_with("static const char[] BINARRAY = {"));
            assert!(out.ends_with("}"));
        }
    }
}

#[test]
fn one_token_per_byte_and_decode_round_trip() {
    let bytes: Vec<u8> = (0u8..=255).collect();
    for width in [50, 80, 333] {
        let out = process_bin_file(&bytes, width);
        assert_eq!(out.matches("0x").count(), bytes.len());
        assert_eq!(decode_tokens(&out), bytes);
    }
}

#[test]
fn tokens_are_two_lowercase_hex_digits() {
    let out = process_bin_file(&[0x0a, 0xab, 0x05, 0xf0], 80);
    assert_eq!(out, "static const char[] BINARRAY = {\n    0x0a, 0xab, 0x05, 0xf0,}");
}

#[test]
fn header_wraps_before_first_byte_at_any_width() {
    let out = process_bin_file(&[0x42], 500);
    assert_eq!(out, "static const char[] BINARRAY = {\n    0x42,}");
}

#[test]
fn wrapped_lines_fill_up_at_width_50() {
    // At width 50, a fresh line holds the indent plus a token (9 characters)
    // and then grows by 6 per token while staying under 50: seven tokens, 45
    // characters, and the eighth token wraps.
    let bytes: Vec<u8> = vec![0u8; 14];
    let out = process_bin_file(&bytes, 50);
    let lines: Vec<&str> = out.lines().collect();
    assert_eq!(lines.len(), 3);
    assert_eq!(lines[0], "static const char[] BINARRAY = {");
    assert_eq!(lines[1], "    0x00, 0x00, 0x00, 0x00, 0x00, 0x00, 0x00,");
    assert_eq!(lines[1].len(), 45);
    assert_eq!(lines[2], "    0x00, 0x00, 0x00, 0x00, 0x00, 0x00, 0x00,}");
}

#[test]
fn byte_order_is_preserved() {
    let bytes: Vec<u8> = vec![0xde, 0xad, 0xbe, 0xef, 0x00, 0x01];
    let out = process_bin_file(&bytes, 90);
    assert_eq!(decode_tokens(&out), bytes);
    assert_eq!(out, "static const char[] BINARRAY = {\n    0xde, 0xad, 0xbe, 0xef, 0x00, 0x01,}");
}
