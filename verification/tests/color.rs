use nv::color::{colored_kv_label, colorize, paint, AnsiColor, ColorConfig};

#[test]
fn ansi_color_codes_are_valid() {
    assert_eq!(AnsiColor::Red.code(), "\x1b[31m");
    assert_eq!(AnsiColor::Reset.code(), "\x1b[0m");
}

#[test]
fn colorizer_with_disabled_just_returns_text() {
    let colored = colorize("hello", AnsiColor::Red, false);
    assert_eq!(colored.to_string(), "hello");
}

#[test]
fn colorizer_with_enabled_wraps_in_codes() {
    let colored = colorize("hello", AnsiColor::Red, true);
    assert_eq!(colored.to_string(), "\x1b[31mhello\x1b[0m");
}

#[test]
fn default_color_config_has_sensible_defaults() {
    let config = ColorConfig::default();
    assert_eq!(config.service_root, AnsiColor::Magenta);
    assert_eq!(config.subfolder, AnsiColor::Blue);
    assert_eq!(config.file, AnsiColor::Cyan);
    assert_eq!(config.key, AnsiColor::Green);
    assert_eq!(config.value, AnsiColor::Yellow);
    assert_eq!(config.added, AnsiColor::Green);
    assert_eq!(config.removed, AnsiColor::Red);
}

#[test]
fn color_names_are_lowercase_words() {
    assert_eq!(AnsiColor::Magenta.name(), "magenta");
    assert_eq!(AnsiColor::Green.code(), "\x1b[32m");
}

#[test]
fn paint_wraps_only_when_enabled() {
    let text: Vec<char> = "x".chars().collect();
    let on: String = paint(&text, AnsiColor::Blue, true).into_iter().collect();
    let off: String = paint(&text, AnsiColor::Blue, false).into_iter().collect();
    assert_eq!(on, "\x1b[34mx\x1b[0m");
    assert_eq!(off, "x");
}

#[test]
fn kv_label_colors_key_and_value() {
    assert_eq!(colored_kv_label("K", "v", AnsiColor::Green, AnsiColor::Yellow, false), "K = v");
    assert_eq!(
        colored_kv_label("K", "v", AnsiColor::Green, AnsiColor::Yellow, true),
        "\x1b[32mK\x1b[0m = \x1b[33mv\x1b[0m"
    );
}
