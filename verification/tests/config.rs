use rmenu::config::{AppConfig, Args, Color, Config, Style, DEFAULT_HEIGHT};
use rmenu::history::History;

fn color(r: u8, g: u8, b: u8, a: u8) -> Color {
    Color { r, g, b, a }
}

fn plain() -> Config {
    Config { blacklist: None, whitelist: None, style: None }
}

#[test]
fn default_color_is_all_zero() {
    assert_eq!(Color::default(), color(0, 0, 0, 0));
}

#[test]
fn color_is_read_from_eight_hex_digits() {
    assert_eq!(Color::parse("#ff0000ff"), color(255, 0, 0, 255));
    assert_eq!(Color::parse("#101010ee"), color(16, 16, 16, 238));
    assert_eq!(Color::parse("#01020304"), color(1, 2, 3, 4));
    assert_eq!(Color::parse("#00000000"), color(0, 0, 0, 0));
    assert_eq!(Color::parse("#9a8b7c6d"), color(0x9a, 0x8b, 0x7c, 0x6d));
}

#[test]
fn color_digits_may_be_of_either_case() {
    assert_eq!(Color::parse("#FF00ABcd"), color(255, 0, 0xab, 0xcd));
    assert_eq!(Color::parse("#D0d0D0Ff"), color(0xd0, 0xd0, 0xd0, 0xff));
}

#[test]
fn anything_else_is_the_default_color() {
    for text in [
        "", "#", "ff0000ff", "#ff0000", "#ff0000ff0", "#gg0000ff", "#ff0000fg", " #ff0000ff",
        "#ff0000ff ", "#ff0000ff\n", "0xff0000ff", "#ff 000ff", "#ff0000f\u{ff46}", "red",
        "##ff0000f",
    ] {
        assert_eq!(Color::parse(text), color(0, 0, 0, 0));
    }
}

#[test]
fn defaults_stand_in_for_what_is_not_configured() {
    let config = plain();
    assert_eq!(config.height(), 32);
    assert_eq!(DEFAULT_HEIGHT, 32);
    assert_eq!(config.highlight(), color(0xff, 0x00, 0x00, 0xff));
    assert_eq!(config.foreground(), color(0xd0, 0xd0, 0xd0, 0xff));
    assert_eq!(config.background(), color(0x10, 0x10, 0x10, 0xee));
}

#[test]
fn configured_style_is_used() {
    let config = Config {
        blacklist: None,
        whitelist: None,
        style: Some(Style {
            highlight_color: Some(color(1, 2, 3, 4)),
            foreground_color: None,
            background_color: Some(color(5, 6, 7, 8)),
            height: 48,
        }),
    };
    assert_eq!(config.height(), 48);
    assert_eq!(config.highlight(), color(1, 2, 3, 4));
    assert_eq!(config.foreground(), color(0xd0, 0xd0, 0xd0, 0xff));
    assert_eq!(config.background(), color(5, 6, 7, 8));
}

#[test]
fn policy_without_lists_lets_everything_in() {
    let config = plain();
    assert!(config.allows("ls"));
    assert!(config.allows(""));
}

#[test]
fn policy_with_both_lists() {
    let config = Config {
        blacklist: Some(vec![String::from("rm"), String::from("dd")]),
        whitelist: Some(vec![String::from("ls"), String::from("rm")]),
        style: None,
    };
    assert!(config.allows("ls"));
    assert!(!config.allows("rm"));
    assert!(!config.allows("dd"));
    assert!(!config.allows("cat"));
    assert!(!config.allows("LS"));
}

#[test]
fn history_is_counted_and_handed_out_for_writing() {
    let mut app_config = AppConfig {
        config: plain(),
        history: History::from_text("alpha|1\nbeta|5\n"),
        args: Args { config: None, history: Some(String::from("/home/u/.config/rmenu/history")) },
    };
    let store = app_config.increment_and_store_history(String::from("beta"));
    assert_eq!(app_config.history.get_weight(&String::from("beta")), 6);
    assert_eq!(app_config.history.get_weight(&String::from("alpha")), 1);
    match store {
        Some(written) => {
            assert_eq!(written.path, "/home/u/.config/rmenu/history");
            assert_eq!(written.text, "alpha|1\nbeta|6\n");
        },
        None => panic!("the history has a file"),
    }
}

#[test]
fn history_without_a_file_is_counted_only() {
    let mut app_config = AppConfig {
        config: plain(),
        history: History::new(),
        args: Args { config: None, history: None },
    };
    let store = app_config.increment_and_store_history(String::from("beta"));
    assert!(store.is_none());
    assert_eq!(app_config.history.get_weight(&String::from("beta")), 1);
}

#[test]
fn weight_at_its_limit_stays() {
    let mut app_config = AppConfig {
        config: plain(),
        history: History::from_text("beta|4294967295\n"),
        args: Args { config: None, history: Some(String::from("h")) },
    };
    let store = app_config.increment_and_store_history(String::from("beta"));
    assert_eq!(app_config.history.get_weight(&String::from("beta")), u32::MAX);
    match store {
        Some(written) => assert_eq!(written.text, "beta|4294967295\n"),
        None => panic!("the history has a file"),
    }
}
