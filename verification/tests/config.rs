use rsslide::config::{parse_hex_color, Color, Colors};

#[test]
fn default_colors() {
    let c = Colors::default();
    assert_eq!(c.text.rgb(), (0, 0, 0));
    assert_eq!(c.bullet.rgb(), (0, 0, 0));
    assert_eq!(c.title_rule.rgb(), (0, 0, 0));
    assert_eq!(c.code_background.rgb(), (240, 240, 240));
}

#[test]
fn colors_parse_hex_strings() {
    assert_eq!(parse_hex_color("#102030").unwrap().rgb(), (0x10, 0x20, 0x30));
    assert_eq!(parse_hex_color("#ffcc00").unwrap().rgb(), (0xff, 0xcc, 0x00));
    assert_eq!(parse_hex_color("FFCC00").unwrap().rgb(), (0xff, 0xcc, 0x00));
}

#[test]
fn bad_hex_strings_are_rejected() {
    let e = parse_hex_color("not-a-color").unwrap_err();
    assert!(e.contains("#rrggbb"));
    assert_eq!(e, "color must be #rrggbb, got \"not-a-color\"");
    let e2 = parse_hex_color("#12345g").unwrap_err();
    assert_eq!(e2, "bad color \"#12345g\": invalid digit found in string");
    let e3 = parse_hex_color("##12345").unwrap_err();
    assert_eq!(e3, "bad color \"##12345\": invalid digit found in string");
    assert!(parse_hex_color("").is_err());
    assert!(parse_hex_color("#1234567").is_err());
    // A sign is no hex digit.
    assert_eq!(
        parse_hex_color("#+f+f+f").unwrap_err(),
        "bad color \"#+f+f+f\": invalid digit found in string"
    );
    assert!(parse_hex_color("#+f0000").is_err());
    // Six bytes with a char across a digit pair: refused, not a panic.
    assert_eq!(
        parse_hex_color("#a\u{e9}\u{20ac}").unwrap_err(),
        "bad color \"#a\u{e9}\u{20ac}\": invalid digit found in string"
    );
    // Six bytes, but not six digits.
    assert_eq!(
        parse_hex_color("éé12").unwrap_err(),
        "bad color \"éé12\": invalid digit found in string"
    );
}

#[test]
fn rgb_returns_the_triple() {
    assert_eq!(Color(1, 2, 3).rgb(), (1, 2, 3));
}
