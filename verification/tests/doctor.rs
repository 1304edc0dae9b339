use omatheme::doctor::hex_literals;

#[test]
fn reads_every_colour_notation() {
    assert_eq!(hex_literals(r#"bar_color = "rgb(dfcfaa)""#), vec!["dfcfaa"]);
    assert_eq!(hex_literals(r#"col = "rgba(595959aa)""#), vec!["595959"]);
    assert_eq!(hex_literals(r##"accent = "#3A6FB5""##), vec!["3a6fb5"]);
}

#[test]
fn ignores_identifiers_and_short_runs() {
    assert!(hex_literals("local deadbeef_value = 1").is_empty());
    assert!(hex_literals("size = 12").is_empty());
}

use omatheme::doctor::{is_scan_target, scan_contents, Palette};

const COLORS: &str = "\
# a comment = #ffffff
accent = \"#3A6FB5\" # gojo
foreground = \"#443f40\"
copy = \"#3a6fb5\"
short = \"#abc\"
name = \"not a colour\"
darker_background = \"#dfcfaa\"
";

#[test]
fn palette_keeps_the_first_key_of_each_colour() {
    let palette = Palette::parse(COLORS);
    assert_eq!(palette.len(), 3);
    assert_eq!(palette.get("3a6fb5").unwrap(), "accent");
    assert_eq!(palette.get("443f40").unwrap(), "foreground");
    assert_eq!(palette.get("dfcfaa").unwrap(), "darker_background");
    assert!(palette.get("ffffff").is_none());
    assert!(palette.get("abc").is_none());
}

#[test]
fn scan_reports_duplicated_colours_with_line_numbers() {
    let palette = Palette::parse(COLORS);
    let contents = "bar_color = \"rgb(dfcfaa)\"\n-- text = \"443f40\"\n  // x = #443f40\ncol = \"#443F40\"\nother = \"#123456\"\r\n";
    let found = scan_contents(contents, &palette);
    assert_eq!(found.len(), 2);
    assert_eq!(found[0].line, 1);
    assert_eq!(found[0].hex, "dfcfaa");
    assert_eq!(found[0].key, "darker_background");
    assert_eq!(found[1].line, 4);
    assert_eq!(found[1].hex, "443f40");
    assert_eq!(found[1].key, "foreground");
}

#[test]
fn literal_boundaries() {
    assert_eq!(hex_literals("a=#123456 b='abcdef'"), vec!["123456", "abcdef"]);
    assert!(hex_literals("x1234567").is_empty());
    assert!(hex_literals("#123456g").is_empty());
    assert!(hex_literals("#1234567").is_empty());
    assert_eq!(hex_literals("123456"), vec!["123456"]);
    assert!(hex_literals("#123456é").is_empty());
}

#[test]
fn scanned_extensions() {
    for ext in ["lua", "conf", "json", "jsonc", "toml"] {
        assert!(is_scan_target(ext));
    }
    assert!(!is_scan_target("txt"));
    assert!(!is_scan_target(""));
}

#[test]
fn literals_come_out_as_lowercase_rrggbb() {
    for hex in hex_literals("a = \"#ABCDEF\" b = rgba(0A1B2C3D) c = 'fedcba'") {
        assert_eq!(hex.len(), 6);
        assert!(hex.chars().all(|c| c.is_ascii_digit() || ('a'..='f').contains(&c)));
    }
    assert_eq!(
        hex_literals("a = \"#ABCDEF\" b = rgba(0A1B2C3D) c = 'fedcba'"),
        vec!["abcdef", "0a1b2c", "fedcba"]
    );
}

#[test]
fn palette_colours_are_distinct() {
    let palette = Palette::parse("a = \"#AAAAAA\"\nb = \"#aaaaaa\"\nc = \"#bbbbbb\"\n");
    assert_eq!(palette.len(), 2);
    assert_eq!(palette.get("aaaaaa").unwrap(), "a");
    assert_eq!(palette.get("bbbbbb").unwrap(), "c");
}

#[test]
fn literals_ignore_letter_case() {
    for line in ["bar = \"rgb(DfCfAa)\" x = #ABCDEF deadBEEF_x", "col = 'rgba(595959AA)'"] {
        assert_eq!(hex_literals(&line.to_ascii_uppercase()), hex_literals(line));
        assert_eq!(hex_literals(&line.to_ascii_lowercase()), hex_literals(line));
    }
}

#[test]
fn whitespace_is_the_unicode_white_space_property() {
    for c in (0u32..=0x10FFFF).filter_map(char::from_u32) {
        assert_eq!(omatheme::text::is_whitespace(c), c.is_whitespace(), "{c:?}");
    }
}
