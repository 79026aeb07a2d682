use libplen::names::{default_player_name, sanitize_name};

#[test]
fn whitespace_only_name_becomes_default() {
    assert_eq!(sanitize_name("   "), "Mr Whitespace");
    assert_eq!(sanitize_name(""), "Mr Whitespace");
    assert_eq!(sanitize_name("\t \n"), "Mr Whitespace");
}

#[test]
fn surrounding_whitespace_is_trimmed() {
    assert_eq!(sanitize_name(" Bob "), "Bob");
    assert_eq!(sanitize_name("\tBob\n"), "Bob");
    assert_eq!(sanitize_name("Bob"), "Bob");
}

#[test]
fn long_name_is_capped_to_display_width() {
    let long = "a".repeat(25);
    assert_eq!(sanitize_name(&long), "a".repeat(20));
    // wide characters count double, so ten of them fill the width
    let wide = "宽".repeat(15);
    assert_eq!(sanitize_name(&wide), "宽".repeat(10));
}

#[test]
fn sanitized_name_is_never_empty() {
    for s in ["", " ", "\u{2009}", "x", "  y  "] {
        assert!(!sanitize_name(s).is_empty());
    }
}

#[test]
fn default_name_is_the_placeholder() {
    assert_eq!(default_player_name(), "Mr Whitespace");
}

#[test]
fn zero_width_flood_falls_back_to_default() {
    // combining marks have no display width, so the width cap keeps them
    // all; the byte cap then rejects the name rather than storing it
    let flood = "\u{0301}".repeat(100);
    assert_eq!(sanitize_name(&flood), "Mr Whitespace");
}
