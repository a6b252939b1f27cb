use rmenu::catalog::{Found, Scan};
use rmenu::config::{AppConfig, Args, Config};
use rmenu::history::History;
use rmenu::session::{
    Action, AppContext, KeyEvent, Modifiers, KEY_BACKSPACE, KEY_ESCAPE, KEY_RETURN, KEY_TAB, NO_TARGET,
};

fn scans(names: &[&str]) -> Vec<Scan> {
    vec![Scan::Listed(
        names
            .iter()
            .map(|name| Found {
                path: format!("/usr/bin/{}", name),
                name: String::from(*name),
                is_file: true,
                mode: 0o755,
            })
            .collect(),
    )]
}

fn session(names: &[&str], history: &str, file: Option<&str>) -> AppContext {
    let config = AppConfig {
        config: Config { blacklist: None, whitelist: None, style: None },
        history: History::from_text(history),
        args: Args { config: None, history: file.map(String::from) },
    };
    match AppContext::new(config, &scans(names)) {
        Ok(context) => context,
        Err(_) => panic!("all directories can be read"),
    }
}

fn key(keysym: u32) -> KeyEvent {
    KeyEvent { keysym, utf8: None }
}

fn text(text: &str) -> KeyEvent {
    KeyEvent { keysym: 0x61, utf8: Some(String::from(text)) }
}

fn shift() -> Modifiers {
    Modifiers { ctrl: false, alt: false, shift: true, caps_lock: false, logo: false, num_lock: false }
}

fn none() -> Modifiers {
    Modifiers { ctrl: false, alt: false, shift: false, caps_lock: false, logo: false, num_lock: false }
}

fn shown(context: &AppContext) -> Vec<String> {
    context.list().filtered.iter().map(|command| command.name.clone()).collect()
}

#[test]
fn session_starts_with_everything_shown() {
    let context = session(&["alpha", "beta", "alacrity"], "beta|5\n", None);
    assert_eq!(context.input(), "");
    assert_eq!(context.current_index(), 0);
    assert_eq!(shown(&context), vec!["beta", "alpha", "alacrity"]);
    assert_eq!(context.modifiers(), none());
    match context.target() {
        Some(command) => assert_eq!(command.path, "/usr/bin/beta"),
        None => panic!("a command is shown"),
    }
}

#[test]
fn session_does_not_start_on_an_unreadable_directory() {
    let config = AppConfig {
        config: Config { blacklist: None, whitelist: None, style: None },
        history: History::new(),
        args: Args { config: None, history: None },
    };
    match AppContext::new(config, &vec![Scan::Unreadable]) {
        Ok(_) => panic!("the directory cannot be read"),
        Err(error) => assert_eq!(error.directory, 0),
    }
}

#[test]
fn text_narrows_the_list() {
    let mut context = session(&["alpha", "beta", "alacrity"], "", None);
    assert!(matches!(context.handle_key(text("a")), Action::Wait));
    assert_eq!(context.input(), "a");
    assert_eq!(shown(&context), vec!["alpha", "alacrity"]);
    assert!(matches!(context.handle_key(text("l")), Action::Wait));
    assert!(matches!(context.handle_key(text("a")), Action::Wait));
    assert_eq!(context.input(), "ala");
    assert_eq!(shown(&context), vec!["alacrity"]);
    assert!(matches!(context.handle_key(text("xyz")), Action::Wait));
    assert_eq!(context.input(), "alaxyz");
    assert!(shown(&context).is_empty());
    assert_eq!(context.current_index(), 0);
}

#[test]
fn backspace_takes_one_character_back() {
    let mut context = session(&["alpha", "beta", "alacrity"], "", None);
    context.handle_key(text("alp"));
    assert_eq!(shown(&context), vec!["alpha"]);
    assert!(matches!(context.handle_key(key(KEY_BACKSPACE)), Action::Wait));
    assert_eq!(context.input(), "al");
    assert_eq!(shown(&context), vec!["alpha", "alacrity"]);
    context.handle_key(key(KEY_BACKSPACE));
    context.handle_key(key(KEY_BACKSPACE));
    assert_eq!(context.input(), "");
    assert_eq!(shown(&context), vec!["alpha", "beta", "alacrity"]);
}

#[test]
fn backspace_takes_a_whole_character() {
    let mut context = session(&["ölpumpe"], "", None);
    context.handle_key(text("ö"));
    assert_eq!(shown(&context), vec!["ölpumpe"]);
    context.handle_key(key(KEY_BACKSPACE));
    assert_eq!(context.input(), "");
}

#[test]
fn erase_on_empty_input() {
    let mut context = session(&["alpha", "beta", "alacrity"], "beta|5\n", None);
    let before = shown(&context);
    assert!(matches!(context.handle_key(key(KEY_BACKSPACE)), Action::Wait));
    assert_eq!(context.input(), "");
    assert_eq!(shown(&context), before);
    assert_eq!(context.current_index(), 0);
}

#[test]
fn typing_takes_the_choice_back_to_the_first() {
    let mut context = session(&["alpha", "beta", "alacrity"], "", None);
    context.update_modifiers(shift());
    context.handle_key(key(KEY_TAB));
    assert_eq!(context.current_index(), 1);
    context.handle_key(text("a"));
    assert_eq!(context.current_index(), 0);
    context.handle_key(key(KEY_TAB));
    assert_eq!(context.current_index(), 1);
    context.handle_key(key(KEY_BACKSPACE));
    assert_eq!(context.current_index(), 0);
}

#[test]
fn tab_with_shift_moves_the_choice() {
    let mut context = session(&["alpha", "beta", "alacrity"], "", None);
    context.update_modifiers(shift());
    assert!(matches!(context.handle_key(key(KEY_TAB)), Action::Wait));
    assert_eq!(context.current_index(), 1);
    assert!(matches!(context.handle_key(key(KEY_TAB)), Action::Wait));
    assert_eq!(context.current_index(), 0);
    assert_eq!(context.input(), "");
    assert_eq!(shown(&context), vec!["alpha", "beta", "alacrity"]);
}

#[test]
fn tab_without_shift_does_nothing() {
    let mut context = session(&["alpha", "beta", "alacrity"], "", None);
    assert!(matches!(context.handle_key(key(KEY_TAB)), Action::Wait));
    assert_eq!(context.current_index(), 0);
    context.update_modifiers(Modifiers { ctrl: true, ..none() });
    context.handle_key(key(KEY_TAB));
    assert_eq!(context.current_index(), 0);
}

#[test]
fn choice_stays_on_a_shown_command() {
    let mut context = session(&["alpha"], "", None);
    context.update_modifiers(shift());
    context.handle_key(key(KEY_TAB));
    assert_eq!(context.current_index(), 0);
    assert!(context.target().is_some());
    let mut context = session(&[], "", None);
    context.update_modifiers(shift());
    context.handle_key(key(KEY_TAB));
    assert_eq!(context.current_index(), 0);
    assert!(context.target().is_none());
}

#[test]
fn tab_does_not_type_its_text() {
    let mut context = session(&["alpha"], "", None);
    let action = context.handle_key(KeyEvent { keysym: KEY_TAB, utf8: Some(String::from("\t")) });
    assert!(matches!(action, Action::Wait));
    assert_eq!(context.input(), "");
}

#[test]
fn key_without_text_does_nothing() {
    let mut context = session(&["alpha", "beta"], "", None);
    context.handle_key(text("b"));
    let action = context.handle_key(key(0xffe1));
    assert!(matches!(action, Action::Wait));
    assert_eq!(context.input(), "b");
    assert_eq!(shown(&context), vec!["beta"]);
}

#[test]
fn escape_ends_the_session() {
    let mut context = session(&["alpha", "beta"], "beta|5\n", Some("h"));
    context.handle_key(text("b"));
    match context.handle_key(key(KEY_ESCAPE)) {
        Action::Exit(status) => assert_eq!(status, 0),
        _ => panic!("escape ends the session"),
    }
    assert_eq!(context.config().history.to_text(), "beta|5\n");
    assert_eq!(context.input(), "b");
}

#[test]
fn activate_with_nothing_shown() {
    let mut context = session(&["alpha", "beta"], "beta|5\n", Some("h"));
    context.handle_key(text("zz"));
    assert!(shown(&context).is_empty());
    match context.handle_key(key(KEY_RETURN)) {
        Action::Exit(status) => {
            assert_eq!(status, 10);
            assert_eq!(status, NO_TARGET);
        },
        _ => panic!("nothing can be launched"),
    }
    assert_eq!(context.config().history.to_text(), "beta|5\n");
}

#[test]
fn return_asks_for_the_launch_of_the_chosen_command() {
    let mut context = session(&["alpha", "beta", "alacrity"], "beta|5\n", Some("h"));
    match context.handle_key(key(KEY_RETURN)) {
        Action::Launch(path) => assert_eq!(path, "/usr/bin/beta"),
        _ => panic!("a command is shown"),
    }
    context.update_modifiers(shift());
    context.handle_key(key(KEY_TAB));
    match context.handle_key(key(KEY_RETURN)) {
        Action::Launch(path) => assert_eq!(path, "/usr/bin/alpha"),
        _ => panic!("a command is shown"),
    }
    assert_eq!(context.config().history.to_text(), "beta|5\n");
}

#[test]
fn successful_launch_counts() {
    let mut context = session(&["alpha", "beta", "alacrity"], "beta|5\n", Some("/tmp/history"));
    context.handle_key(text("be"));
    assert!(matches!(context.handle_key(key(KEY_RETURN)), Action::Launch(_)));
    let finish = context.launched(0);
    assert_eq!(finish.exit, 0);
    assert_eq!(context.config().history.get_weight(&String::from("beta")), 6);
    match finish.store {
        Some(written) => {
            assert_eq!(written.path, "/tmp/history");
            assert_eq!(written.text, "beta|6\n");
            let fresh = History::from_text(written.text.as_str());
            assert_eq!(fresh.get_weight(&String::from("beta")), 6);
        },
        None => panic!("the history has a file"),
    }
}

#[test]
fn first_launch_of_a_command_counts_one() {
    let mut context = session(&["alpha", "beta"], "beta|5\n", Some("h"));
    context.handle_key(text("al"));
    let finish = context.launched(0);
    match finish.store {
        Some(written) => assert_eq!(written.text, "beta|5\nalpha|1\n"),
        None => panic!("the history has a file"),
    }
    assert_eq!(shown(&context), vec!["alpha"]);
}

#[test]
fn failed_launch_does_not_count() {
    let mut context = session(&["alpha", "beta"], "beta|5\n", Some("h"));
    let finish = context.launched(1);
    assert_eq!(finish.exit, 1);
    assert!(finish.store.is_none());
    assert_eq!(context.config().history.to_text(), "beta|5\n");
}

#[test]
fn launch_without_a_history_file_counts_in_memory() {
    let mut context = session(&["alpha", "beta"], "", None);
    let finish = context.launched(0);
    assert_eq!(finish.exit, 0);
    assert!(finish.store.is_none());
    assert_eq!(context.config().history.get_weight(&String::from("alpha")), 1);
}

#[test]
fn list_follows_the_history_after_a_launch() {
    let mut context = session(&["alpha", "beta", "gamma"], "beta|1\n", None);
    assert_eq!(shown(&context), vec!["beta", "alpha", "gamma"]);
    context.update_modifiers(shift());
    context.handle_key(key(KEY_TAB));
    assert_eq!(context.current_index(), 1);
    context.launched(0);
    assert_eq!(shown(&context), vec!["alpha", "beta", "gamma"]);
    assert_eq!(context.current_index(), 1);
    context.launched(0);
    assert_eq!(shown(&context), vec!["beta", "alpha", "gamma"]);
    assert_eq!(context.config().history.to_text(), "beta|2\nalpha|1\n");
}

#[test]
fn pop_and_append_keep_the_list_in_step() {
    let mut context = session(&["alpha", "beta", "alacrity"], "", None);
    context.append_and_filter("Al");
    assert_eq!(context.input(), "Al");
    assert_eq!(shown(&context), vec!["alpha", "alacrity"]);
    context.append_and_filter("P");
    assert_eq!(shown(&context), vec!["alpha"]);
    context.pop_and_filter();
    assert_eq!(context.input(), "Al");
    assert_eq!(shown(&context), vec!["alpha", "alacrity"]);
    context.pop_and_filter();
    context.pop_and_filter();
    context.pop_and_filter();
    assert_eq!(context.input(), "");
    assert_eq!(shown(&context), vec!["alpha", "beta", "alacrity"]);
}
