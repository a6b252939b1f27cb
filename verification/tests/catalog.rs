use rmenu::catalog::{gather_commands, search_dirs, split_text, without_repeats, Found, Scan, ScanError};
use rmenu::command::CommandList;
use rmenu::config::{AppConfig, Args, Config};
use rmenu::history::History;

fn found(dir: &str, name: &str, is_file: bool, mode: u32) -> Found {
    Found { path: format!("{}/{}", dir, name), name: String::from(name), is_file, mode }
}

fn config(whitelist: Option<&[&str]>, blacklist: Option<&[&str]>) -> Config {
    Config {
        blacklist: blacklist.map(|names| names.iter().map(|name| String::from(*name)).collect()),
        whitelist: whitelist.map(|names| names.iter().map(|name| String::from(*name)).collect()),
        style: None,
    }
}

fn ok(result: Result<Vec<String>, ScanError>) -> Vec<String> {
    match result {
        Ok(list) => list,
        Err(error) => panic!("directory {} could not be read", error.directory),
    }
}

#[test]
fn executables_are_commands() {
    let scans = vec![Scan::Listed(vec![
        found("/bin", "ls", true, 0o755),
        found("/bin", "notes.txt", true, 0o644),
        found("/bin", "owner", true, 0o100),
        found("/bin", "group", true, 0o010),
        found("/bin", "other", true, 0o001),
        found("/bin", "sub", false, 0o755),
        found("/bin", "locked", true, 0o000),
        found("/bin", "suid", true, 0o4755),
        found("/bin", "sticky", true, 0o1666),
    ])];
    let list = ok(gather_commands(&config(None, None), &scans));
    assert_eq!(list, vec!["/bin/ls", "/bin/owner", "/bin/group", "/bin/other", "/bin/suid"]);
}

#[test]
fn whitelist_lets_in_what_it_names() {
    let scans = vec![Scan::Listed(vec![
        found("/bin", "ls", true, 0o755),
        found("/bin", "cat", true, 0o755),
        found("/bin", "rm", true, 0o755),
    ])];
    let list = ok(gather_commands(&config(Some(&["cat", "ls", "absent"]), None), &scans));
    assert_eq!(list, vec!["/bin/ls", "/bin/cat"]);
    let list = ok(gather_commands(&config(Some(&[]), None), &scans));
    assert!(list.is_empty());
}

#[test]
fn blacklist_keeps_out_what_it_names() {
    let scans = vec![Scan::Listed(vec![
        found("/bin", "ls", true, 0o755),
        found("/bin", "cat", true, 0o755),
        found("/bin", "rm", true, 0o755),
    ])];
    let list = ok(gather_commands(&config(None, Some(&["rm"])), &scans));
    assert_eq!(list, vec!["/bin/ls", "/bin/cat"]);
    let list = ok(gather_commands(&config(None, Some(&[])), &scans));
    assert_eq!(list, vec!["/bin/ls", "/bin/cat", "/bin/rm"]);
}

#[test]
fn both_lists_must_let_a_name_in() {
    let scans = vec![Scan::Listed(vec![
        found("/bin", "ls", true, 0o755),
        found("/bin", "cat", true, 0o755),
        found("/bin", "rm", true, 0o755),
    ])];
    let list = ok(gather_commands(&config(Some(&["ls", "rm"]), Some(&["rm", "cat"])), &scans));
    assert_eq!(list, vec!["/bin/ls"]);
}

#[test]
fn lists_go_by_exact_name() {
    let scans = vec![Scan::Listed(vec![
        found("/bin", "LS", true, 0o755),
        found("/bin", "ls", true, 0o755),
        found("/bin", "lsof", true, 0o755),
    ])];
    let list = ok(gather_commands(&config(None, Some(&["ls"])), &scans));
    assert_eq!(list, vec!["/bin/LS", "/bin/lsof"]);
}

#[test]
fn directories_follow_one_another() {
    let scans = vec![
        Scan::Listed(vec![found("/usr/bin", "b", true, 0o755), found("/usr/bin", "a", true, 0o755)]),
        Scan::Absent,
        Scan::Listed(vec![]),
        Scan::Listed(vec![found("/bin", "c", true, 0o755), found("/bin", "a", true, 0o755)]),
    ];
    let list = ok(gather_commands(&config(None, None), &scans));
    assert_eq!(list, vec!["/usr/bin/b", "/usr/bin/a", "/bin/c", "/bin/a"]);
}

#[test]
fn no_directory_gives_no_command() {
    assert!(ok(gather_commands(&config(None, None), &Vec::new())).is_empty());
    assert!(ok(gather_commands(&config(None, None), &vec![Scan::Absent, Scan::Absent])).is_empty());
}

#[test]
fn unreadable_directory_is_an_error() {
    let scans = vec![
        Scan::Listed(vec![found("/usr/bin", "a", true, 0o755)]),
        Scan::Absent,
        Scan::Unreadable,
        Scan::Listed(vec![found("/bin", "c", true, 0o755)]),
        Scan::Unreadable,
    ];
    assert_eq!(gather_commands(&config(None, None), &scans), Err(ScanError { directory: 2 }));
    let scans = vec![Scan::Unreadable];
    assert_eq!(gather_commands(&config(None, None), &scans), Err(ScanError { directory: 0 }));
}

#[test]
fn order_of_entries_changes_the_order_only() {
    let first = vec![
        Scan::Listed(vec![
            found("/bin", "a", true, 0o755),
            found("/bin", "b", true, 0o644),
            found("/bin", "c", true, 0o755),
            found("/bin", "d", true, 0o755),
        ]),
        Scan::Listed(vec![found("/sbin", "a", true, 0o755), found("/sbin", "e", true, 0o755)]),
    ];
    let second = vec![
        Scan::Listed(vec![
            found("/bin", "d", true, 0o755),
            found("/bin", "c", true, 0o755),
            found("/bin", "b", true, 0o644),
            found("/bin", "a", true, 0o755),
        ]),
        Scan::Listed(vec![found("/sbin", "e", true, 0o755), found("/sbin", "a", true, 0o755)]),
    ];
    let policy = config(None, Some(&["c"]));
    let mut one = ok(gather_commands(&policy, &first));
    let again = ok(gather_commands(&policy, &first));
    assert_eq!(one, again);
    let mut other = ok(gather_commands(&policy, &second));
    assert_eq!(other, vec!["/bin/d", "/bin/a", "/sbin/e", "/sbin/a"]);
    one.sort();
    other.sort();
    assert_eq!(one, other);
}

#[test]
fn split_text_parts_at_each_colon() {
    assert_eq!(split_text("/usr/bin:/bin", ':'), vec!["/usr/bin", "/bin"]);
    assert_eq!(split_text("/usr/bin", ':'), vec!["/usr/bin"]);
    assert_eq!(split_text("", ':'), vec![""]);
    assert_eq!(split_text(":", ':'), vec!["", ""]);
    assert_eq!(split_text("a::b:", ':'), vec!["a", "", "b", ""]);
    assert_eq!(split_text(":a", ':'), vec!["", "a"]);
}

#[test]
fn split_text_agrees_with_the_standard_library() {
    for text in ["", ":", "a", "a:b", "a::b", ":a:", "::", "/usr/bin:/bin:/usr/local/bin", "ä:ö"] {
        let expected: Vec<String> = text.split(":").map(String::from).collect();
        assert_eq!(split_text(text, ':'), expected);
    }
}

#[test]
fn without_repeats_keeps_the_first_of_each() {
    let items: Vec<String> = ["b", "a", "b", "c", "a", "b"].iter().map(|s| String::from(*s)).collect();
    assert_eq!(without_repeats(&items), vec!["b", "a", "c"]);
    assert!(without_repeats(&Vec::new()).is_empty());
}

#[test]
fn search_dirs_names_each_directory_once() {
    assert_eq!(
        search_dirs("/usr/bin:/bin:/usr/bin:/usr/local/bin:/bin"),
        vec!["/usr/bin", "/bin", "/usr/local/bin"]
    );
    assert_eq!(search_dirs("/bin"), vec!["/bin"]);
    assert_eq!(search_dirs("/bin::/sbin:"), vec!["/bin", "", "/sbin"]);
}

#[test]
fn command_list_shows_all_commands_at_first() {
    let app_config = AppConfig {
        config: config(None, Some(&["rm"])),
        history: History::from_text("cat|3\n"),
        args: Args { config: None, history: None },
    };
    let scans = vec![Scan::Listed(vec![
        found("/bin", "ls", true, 0o755),
        found("/bin", "rm", true, 0o755),
        found("/bin", "cat", true, 0o755),
    ])];
    let list = match CommandList::new(&app_config, &scans) {
        Ok(list) => list,
        Err(_) => panic!("all directories can be read"),
    };
    assert_eq!(list.initial, vec!["/bin/ls", "/bin/cat"]);
    assert_eq!(list.filtered_len(), 2);
    assert_eq!(list.filtered[0].name, "cat");
    assert_eq!(list.filtered[0].weight, 3);
    assert_eq!(list.filtered[1].name, "ls");
}

#[test]
fn command_list_of_an_unreadable_directory() {
    let app_config = AppConfig {
        config: config(None, None),
        history: History::new(),
        args: Args { config: None, history: None },
    };
    let scans = vec![Scan::Absent, Scan::Unreadable];
    match CommandList::new(&app_config, &scans) {
        Ok(_) => panic!("the second directory cannot be read"),
        Err(error) => assert_eq!(error.directory, 1),
    }
}
