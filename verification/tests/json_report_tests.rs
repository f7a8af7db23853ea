use palettefit::check::{any_fail, exit_status, ColorStatus, Verdict};
use palettefit::color::Rgb8;
use palettefit::json::{opt_str, quote};
use palettefit::order::{bits_of_key, key_of_bits};
use palettefit::report::{ColorChoice, Style};

#[test]
fn quoting() {
    assert_eq!(quote("a\"b\\c\nd"), "\"a\\\"b\\\\c\\nd\"");
    assert_eq!(quote("\u{01}"), "\"\\u0001\"");
    assert_eq!(opt_str(None), "null");
}

#[test]
fn quote_escapes_every_control_character() {
    assert_eq!(quote("\r\t\u{08}\u{0c}"), "\"\\r\\t\\b\\f\"");
    assert_eq!(quote("\u{1f}\u{00}"), "\"\\u001f\\u0000\"");
    assert_eq!(quote("héllo ✓"), "\"héllo ✓\"");
    assert_eq!(quote(""), "\"\"");
    assert_eq!(opt_str(Some("e63946")), "\"e63946\"");
}

#[test]
fn plain_style_prints_words_without_escapes() {
    let st = Style::new(ColorChoice::Never, true, false);
    assert_eq!(st.swatch(Rgb8::new(1, 2, 3)), "");
    assert_eq!(st.verdict_word(Verdict::Pass), "PASS");
    assert_eq!(st.verdict_word(Verdict::Warn), "WARN");
    assert_eq!(st.verdict_word(Verdict::Fail), "FAIL");
    assert_eq!(st.status_word(ColorStatus::Held), "ok     ");
    assert_eq!(st.status_word(ColorStatus::Drift), "drift  ");
    assert_eq!(st.status_word(ColorStatus::Missing), "missing");
}

#[test]
fn colored_style_paints_swatches_and_words() {
    let st = Style::new(ColorChoice::Auto, true, false);
    assert_eq!(st.swatch(Rgb8::new(230, 57, 7)), "\x1b[48;2;230;57;7m  \x1b[0m ");
    assert_eq!(st.swatch(Rgb8::new(0, 100, 255)), "\x1b[48;2;0;100;255m  \x1b[0m ");
    assert_eq!(st.verdict_word(Verdict::Fail), "\x1b[31;1mFAIL\x1b[0m");
    assert_eq!(st.status_word(ColorStatus::Drift), "\x1b[33mdrift  \x1b[0m");
}

#[test]
fn auto_color_needs_a_terminal_and_no_no_color() {
    let plain = |st: Style| st.verdict_word(Verdict::Pass) == "PASS";
    assert!(plain(Style::new(ColorChoice::Auto, false, false)));
    assert!(plain(Style::new(ColorChoice::Auto, true, true)));
    assert!(plain(Style::new(ColorChoice::Never, true, false)));
    assert!(!plain(Style::new(ColorChoice::Auto, true, false)));
}

#[test]
fn order_keys_sort_like_the_doubles() {
    let xs: [f64; 10] = [-1e300, -2.5, -0.0, 0.0, 1e-300, 0.5, 3.0, 8.0, 47.8, 1e300];
    for w in xs.windows(2) {
        assert!(key_of_bits(w[0].to_bits()) < key_of_bits(w[1].to_bits()), "{} {}", w[0], w[1]);
    }
    for &x in &xs {
        assert_eq!(bits_of_key(key_of_bits(x.to_bits())), x.to_bits());
    }
    assert_eq!(key_of_bits(0.0f64.to_bits()), 0x8000_0000_0000_0000);
}

#[test]
fn quoted_text_holds_no_control_characters() {
    let all: String = (0u32..0x20).filter_map(char::from_u32).collect();
    let q = quote(&all);
    assert!(q.chars().all(|c| (c as u32) >= 0x20));
    assert!(q.starts_with("\"\\u0000\\u0001"));
}

/// Reads a JSON string literal back.
fn decode(lit: &str) -> String {
    let inner: Vec<char> = lit.chars().collect();
    assert!(inner.len() >= 2 && inner[0] == '"' && inner[inner.len() - 1] == '"');
    let t = &inner[1..inner.len() - 1];
    let mut out = String::new();
    let mut i = 0;
    while i < t.len() {
        if t[i] == '\\' {
            match t[i + 1] {
                'u' => {
                    let code: String = t[i + 2..i + 6].iter().collect();
                    out.push(char::from_u32(u32::from_str_radix(&code, 16).unwrap()).unwrap());
                    i += 6;
                }
                c => {
                    out.push(match c {
                        'n' => '\n',
                        'r' => '\r',
                        't' => '\t',
                        'b' => '\u{08}',
                        'f' => '\u{0c}',
                        other => other,
                    });
                    i += 2;
                }
            }
        } else {
            assert!(t[i] != '"' && (t[i] as u32) >= 0x20);
            out.push(t[i]);
            i += 1;
        }
    }
    out
}

#[test]
fn quoted_text_reads_back_as_itself() {
    let all: String = (0u32..0x80).filter_map(char::from_u32).collect();
    for s in [all.as_str(), "", "a\"b\\c\nd", "héllo ✓ \u{7f}"] {
        assert_eq!(decode(&quote(s)), s);
    }
}

#[test]
fn a_run_fails_when_any_image_fails() {
    assert_eq!(exit_status(&vec![]), 0);
    assert_eq!(exit_status(&vec![Verdict::Pass, Verdict::Warn]), 0);
    assert_eq!(exit_status(&vec![Verdict::Warn, Verdict::Fail, Verdict::Pass]), 1);
    assert!(!any_fail(&vec![Verdict::Warn]));
    assert!(any_fail(&vec![Verdict::Fail]));
}
