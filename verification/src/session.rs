//! The session: what was typed, what is shown, which command is chosen, and
//! what each key does to them.

use vstd::prelude::*;
use vstd::string::StringExecFns;
use crate::catalog::{any_unreadable, catalog, Scan, ScanError};
use crate::command::{
    lemma_empty_filter_is_none, lemma_listed_entry, lemma_selected_len, selected, Command,
    CommandList, Entry,
};
use crate::config::{AppConfig, Args, Config, Store};
use crate::history::{History, Ledger};
use crate::rank::{is_ranking, lemma_ranking_permutes, lemma_ranking_unique};

verus! {

/// The key that ends the session without a launch.
pub const KEY_ESCAPE: u32 = 0xff1b;

/// The key that takes the last character back.
pub const KEY_BACKSPACE: u32 = 0xff08;

/// The key that moves the choice, while shift is held.
pub const KEY_TAB: u32 = 0xff09;

/// The key that launches the chosen command.
pub const KEY_RETURN: u32 = 0xff0d;

/// The exit status of a session that was asked to launch while it showed
/// no command.
pub const NO_TARGET: i32 = 10;

/// Which modifiers are active.
#[derive(Debug, Clone, Copy, PartialEq, Eq, Structural)]
pub struct Modifiers {
    pub ctrl: bool,
    pub alt: bool,
    pub shift: bool,
    pub caps_lock: bool,
    pub logo: bool,
    pub num_lock: bool,
}

/// A key that was pressed: its symbol, and the text that it stands for, if
/// it stands for any.
pub struct KeyEvent {
    pub keysym: u32,
    pub utf8: Option<String>,
}

/// What is to be done after a key: go on, end with an exit status, or launch
/// the executable at a path and report how that went.
pub enum Action {
    Wait,
    Exit(i32),
    Launch(String),
}

/// How a session ends after a launch: with the exit status of the launch,
/// and with what is to be written so that the history is kept.
pub struct Finish {
    pub exit: i32,
    pub store: Option<Store>,
}

/// What a session holds: the configuration, the history and where it is
/// kept, what was typed, the paths of all commands, the commands that are
/// shown, the index of the chosen one, and the modifiers.
pub struct Session {
    pub config: Config,
    pub args: Args,
    pub history: Ledger,
    pub input: Seq<char>,
    pub paths: Seq<Seq<char>>,
    pub shown: Seq<Entry>,
    pub current_index: usize,
    pub modifiers: Modifiers,
}

impl Session {
    /// The invariant of a session: what is shown is what the input leaves
    /// of the commands, ranked by the history as it is, and the index is that
    /// of a shown command, or 0 where none is shown.
    pub open spec fn wf(self) -> bool {
        &&& self.history.wf()
        &&& is_ranking(self.shown, selected(self.paths, Some(self.input), self.history))
        &&& (self.current_index < self.shown.len() || (self.current_index == 0
            && self.shown.len() == 0))
    }
}

/// What was typed, after `event`.
pub open spec fn input_after(input: Seq<char>, event: KeyEvent) -> Seq<char> {
    if event.keysym == KEY_ESCAPE || event.keysym == KEY_TAB || event.keysym == KEY_RETURN {
        input
    } else if event.keysym == KEY_BACKSPACE {
        if input.len() > 0 {
            input.drop_last()
        } else {
            input
        }
    } else {
        match event.utf8 {
            Some(text) => input + text@,
            None => input,
        }
    }
}

/// Where the choice goes when it is moved: back by one, or, from the first
/// command, on to the second where there is one.
pub open spec fn moved(index: usize, shown: nat) -> usize {
    if index > 0 {
        (index - 1) as usize
    } else if index + 1 < shown {
        (index + 1) as usize
    } else {
        index
    }
}

/// The index of the chosen command, after `event`. Tab moves the choice
/// while shift is held, and does nothing without it; whatever changes what
/// was typed, or might, takes the choice back to the first command.
pub open spec fn index_after(index: usize, shown: nat, shift: bool, event: KeyEvent) -> usize {
    if event.keysym == KEY_ESCAPE || event.keysym == KEY_RETURN {
        index
    } else if event.keysym == KEY_TAB {
        if shift {
            moved(index, shown)
        } else {
            index
        }
    } else if event.keysym == KEY_BACKSPACE {
        0
    } else {
        match event.utf8 {
            Some(_) => 0,
            None => index,
        }
    }
}

/// The state of a session.
pub struct AppContext {
    config: AppConfig,
    input: String,
    list: CommandList,
    current_index: usize,
    modifiers: Modifiers,
}

impl View for AppContext {
    type V = Session;

    closed spec fn view(&self) -> Session {
        Session {
            config: self.config.config,
            args: self.config.args,
            history: self.config.history@,
            input: self.input@,
            paths: self.list.initial.deep_view(),
            shown: self.list.filtered.deep_view(),
            current_index: self.current_index,
            modifiers: self.modifiers,
        }
    }
}

impl AppContext {
    #[verifier::type_invariant]
    spec fn inv(self) -> bool {
        self@.wf()
    }

    /// A session without commands, to stand in for one that is being changed:
    /// nothing is configured, the history knows no name and has no file,
    /// nothing is typed, no command is known or shown, and no modifier is
    /// active.
    fn vacant() -> (context: AppContext)
        ensures
            context@ == (Session {
                config: Config { blacklist: None, whitelist: None, style: None },
                args: Args { config: None, history: None },
                history: Ledger::empty(),
                input: Seq::empty(),
                paths: Seq::empty(),
                shown: Seq::empty(),
                current_index: 0,
                modifiers: Modifiers {
                    ctrl: false,
                    alt: false,
                    shift: false,
                    caps_lock: false,
                    logo: false,
                    num_lock: false,
                },
            }),
    {
        let config = AppConfig {
            config: Config { blacklist: None, whitelist: None, style: None },
            history: History::new(),
            args: Args { config: None, history: None },
        };
        let list = CommandList { initial: Vec::new(), filtered: Vec::new() };
        let input = String::new();
        proof {
            assert(list.initial.deep_view() =~= Seq::<Seq<char>>::empty());
            assert(list.filtered.deep_view() =~= Seq::<Entry>::empty());
        }
        AppContext {
            config,
            input,
            list,
            current_index: 0,
            modifiers: Modifiers {
                ctrl: false,
                alt: false,
                shift: false,
                caps_lock: false,
                logo: false,
                num_lock: false,
            },
        }
    }

    /// The session at its start: nothing is typed, all commands that the
    /// scans found are shown, the first is chosen, and no modifier is active.
    /// A directory that cannot be read is an error.
    pub fn new(config: AppConfig, scans: &Vec<Scan>) -> (made: Result<AppContext, ScanError>)
        ensures
            match made {
                Ok(context) => {
                    &&& !any_unreadable(scans.deep_view(), scans.len() as int)
                    &&& context@.wf()
                    &&& context@.config == config.config
                    &&& context@.args == config.args
                    &&& context@.history == config.history@
                    &&& context@.input == Seq::<char>::empty()
                    &&& context@.paths == catalog(config.config, scans.deep_view())
                    &&& context@.current_index == 0
                    &&& !context@.modifiers.shift
                },
                Err(error) => error.directory < scans.len()
                    && scans.deep_view()[error.directory as int] is Unreadable && !any_unreadable(
                    scans.deep_view(),
                    error.directory as int,
                ),
            },
    {
        match CommandList::new(&config, scans) {
            Ok(list) => {
                let input = String::new();
                proof {
                    use_type_invariant(&config.history);
                    lemma_empty_filter_is_none(list.initial.deep_view(), config.history@);
                }
                Ok(
                    AppContext {
                        config,
                        input,
                        list,
                        current_index: 0,
                        modifiers: Modifiers {
                            ctrl: false,
                            alt: false,
                            shift: false,
                            caps_lock: false,
                            logo: false,
                            num_lock: false,
                        },
                    },
                )
            },
            Err(error) => Err(error),
        }
    }

    /// The configuration and the history.
    pub fn config(&self) -> (config: &AppConfig)
        ensures
            config.config == self@.config,
            config.args == self@.args,
            config.history@ == self@.history,
    {
        &self.config
    }

    /// What was typed.
    pub fn input(&self) -> (input: &String)
        ensures
            input@ == self@.input,
    {
        &self.input
    }

    /// All commands, and those that are shown: what the input leaves,
    /// ranked.
    pub fn list(&self) -> (list: &CommandList)
        ensures
            self@.wf(),
            list.initial.deep_view() == self@.paths,
            list.filtered.deep_view() == self@.shown,
    {
        proof {
            use_type_invariant(self);
        }
        &self.list
    }

    /// The index of the chosen command among those that are shown; 0 where
    /// none is shown.
    pub fn current_index(&self) -> (index: usize)
        ensures
            self@.wf(),
            index == self@.current_index,
    {
        proof {
            use_type_invariant(self);
        }
        self.current_index
    }

    /// The modifiers that are active.
    pub fn modifiers(&self) -> (modifiers: Modifiers)
        ensures
            modifiers == self@.modifiers,
    {
        self.modifiers
    }

    /// The chosen command, where one is shown.
    pub fn target(&self) -> (target: Option<&Command>)
        ensures
            self@.wf(),
            match target {
                Some(command) => self@.shown.len() > 0 && command@
                    == self@.shown[self@.current_index as int],
                None => self@.shown.len() == 0,
            },
    {
        proof {
            use_type_invariant(self);
        }
        if self.current_index < self.list.filtered.len() {
            Some(&self.list.filtered[self.current_index])
        } else {
            None
        }
    }

    /// Takes the last character of the input back, if there is one, shows
    /// what the input then leaves, and chooses the first command.
    pub fn pop_and_filter(&mut self)
        ensures
            final(self)@.wf(),
            final(self)@.config == old(self)@.config,
            final(self)@.args == old(self)@.args,
            final(self)@.history == old(self)@.history,
            final(self)@.modifiers == old(self)@.modifiers,
            final(self)@.paths == old(self)@.paths,
            final(self)@.current_index == 0,
            final(self)@.input == if old(self)@.input.len() > 0 {
                old(self)@.input.drop_last()
            } else {
                old(self)@.input
            },
    {
        let mut taken = AppContext::vacant();
        std::mem::swap(self, &mut taken);
        let AppContext { config, mut input, mut list, current_index: _, modifiers } = taken;
        let _ = input.pop();
        list.filter(&input, &config.history);
        proof {
            use_type_invariant(&config.history);
        }
        *self = AppContext { config, input, list, current_index: 0, modifiers };
    }

    /// Adds `input` to what was typed, shows what that leaves, and chooses
    /// the first command.
    pub fn append_and_filter(&mut self, input: &str)
        ensures
            final(self)@.wf(),
            final(self)@.config == old(self)@.config,
            final(self)@.args == old(self)@.args,
            final(self)@.history == old(self)@.history,
            final(self)@.modifiers == old(self)@.modifiers,
            final(self)@.paths == old(self)@.paths,
            final(self)@.current_index == 0,
            final(self)@.input == old(self)@.input + input@,
    {
        let mut taken = AppContext::vacant();
        std::mem::swap(self, &mut taken);
        let AppContext { config, input: mut typed, mut list, current_index: _, modifiers } = taken;
        typed.append(input);
        list.filter(&typed, &config.history);
        proof {
            use_type_invariant(&config.history);
        }
        *self = AppContext { config, input: typed, list, current_index: 0, modifiers };
    }

    /// What the key of `event` does. Escape ends the session with status 0.
    /// Backspace takes a character back, and a key with a text adds the text;
    /// both show what the input then leaves and choose the first command.
    /// Tab with shift moves the choice. Return asks for the launch of the
    /// chosen command, or ends the session with `NO_TARGET` where no command
    /// is shown. No key changes the history.
    pub fn handle_key(&mut self, event: KeyEvent) -> (action: Action)
        ensures
            final(self)@.wf(),
            final(self)@.config == old(self)@.config,
            final(self)@.args == old(self)@.args,
            final(self)@.history == old(self)@.history,
            final(self)@.modifiers == old(self)@.modifiers,
            final(self)@.paths == old(self)@.paths,
            final(self)@.input == input_after(old(self)@.input, event),
            final(self)@.current_index == index_after(
                old(self)@.current_index,
                old(self)@.shown.len(),
                old(self)@.modifiers.shift,
                event,
            ),
            final(self)@.input == old(self)@.input ==> final(self)@.shown == old(self)@.shown,
            match action {
                Action::Wait => event.keysym != KEY_ESCAPE && event.keysym != KEY_RETURN,
                Action::Exit(status) => if event.keysym == KEY_ESCAPE {
                    status == 0
                } else {
                    event.keysym == KEY_RETURN && old(self)@.shown.len() == 0 && status == NO_TARGET
                },
                Action::Launch(path) => event.keysym == KEY_RETURN && old(self)@.shown.len() > 0
                    && path@ == old(self)@.shown[old(self)@.current_index as int].path,
            },
    {
        proof {
            use_type_invariant(&*self);
        }
        let ghost before = self@;
        let action = if event.keysym == KEY_ESCAPE {
            Action::Exit(0)
        } else if event.keysym == KEY_BACKSPACE {
            self.pop_and_filter();
            Action::Wait
        } else if event.keysym == KEY_TAB {
            if self.modifiers.shift {
                if self.current_index > 0 {
                    self.current_index -= 1;
                } else if self.list.filtered_len() > 1 {
                    self.current_index += 1;
                }
            }
            Action::Wait
        } else if event.keysym == KEY_RETURN {
            match self.target() {
                Some(target) => Action::Launch(target.path.clone()),
                None => Action::Exit(NO_TARGET),
            }
        } else {
            match &event.utf8 {
                Some(text) => {
                    self.append_and_filter(text.as_str());
                },
                None => {},
            }
            Action::Wait
        };
        proof {
            if self@.input == before.input {
                lemma_ranking_unique(
                    self@.shown,
                    before.shown,
                    selected(before.paths, Some(before.input), before.history),
                );
            }
        }
        action
    }

    /// Takes note of the modifiers that are active now.
    pub fn update_modifiers(&mut self, modifiers: Modifiers)
        ensures
            final(self)@ == (Session { modifiers, ..old(self)@ }),
    {
        proof {
            use_type_invariant(&*self);
        }
        self.modifiers = modifiers;
    }

    /// Ends the session after the launch of the chosen command: `status` is
    /// what the launch reported, 0 for success. A launch that succeeded counts
    /// in the history, under the display name of the command, and the
    /// history is to be written; one that failed changes nothing. Either way
    /// the session ends with `status`.
    pub fn launched(&mut self, status: i32) -> (finish: Finish)
        ensures
            finish.exit == status,
            final(self)@.wf(),
            final(self)@.config == old(self)@.config,
            final(self)@.args == old(self)@.args,
            final(self)@.modifiers == old(self)@.modifiers,
            final(self)@.paths == old(self)@.paths,
            final(self)@.input == old(self)@.input,
            final(self)@.current_index == old(self)@.current_index,
            if status == 0 && old(self)@.shown.len() > 0 {
                let name = old(self)@.shown[old(self)@.current_index as int].name;
                &&& final(self)@.history == if old(self)@.history.weight(name) < u32::MAX {
                    old(self)@.history.bump(name)
                } else {
                    old(self)@.history
                }
                &&& match old(self)@.args.history {
                    Some(path) => finish.store matches Some(written) && written.path@ == path@
                        && written.text@ == final(self)@.history.text(),
                    None => finish.store is None,
                }
            } else {
                &&& final(self)@ == old(self)@
                &&& finish.store is None
            },
    {
        proof {
            use_type_invariant(&*self);
        }
        let binary: Option<String> = if status == 0 {
            match self.target() {
                Some(target) => {
                    proof {
                        lemma_listed_entry(
                            self@.shown,
                            self@.paths,
                            Some(self@.input),
                            self@.history,
                            self@.current_index as int,
                        );
                    }
                    Some(target.binary())
                },
                None => None,
            }
        } else {
            None
        };
        match binary {
            Some(name) => {
                let ghost before = self@;
                let mut taken = AppContext::vacant();
                std::mem::swap(self, &mut taken);
                let AppContext { mut config, input, mut list, current_index, modifiers } = taken;
                let store = config.increment_and_store_history(name);
                list.filter(&input, &config.history);
                proof {
                    use_type_invariant(&config.history);
                    lemma_ranking_permutes(
                        before.shown,
                        selected(before.paths, Some(before.input), before.history),
                    );
                    lemma_ranking_permutes(
                        list.filtered.deep_view(),
                        selected(before.paths, Some(before.input), config.history@),
                    );
                    lemma_selected_len(
                        before.paths,
                        Some(before.input),
                        before.history,
                        config.history@,
                    );
                }
                *self = AppContext { config, input, list, current_index, modifiers };
                Finish { exit: status, store }
            },
            None => Finish { exit: status, store: None },
        }
    }
}

} // verus!
