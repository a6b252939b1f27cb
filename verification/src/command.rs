//! Commands: the executables that can be launched, and the list of those
//! that match what was typed.

use vstd::prelude::*;
use vstd::pervasive::unreached;
use crate::catalog::{any_unreadable, catalog, gather_commands, Scan, ScanError};
use crate::config::AppConfig;
use crate::history::{History, Ledger};
use crate::rank::{
    is_ranking, lemma_ranking_is_stable, lemma_ranking_keeps_order, lemma_ranking_permutes, rank,
};
use crate::text::{
    chars_of, last_index_of, lemma_last_index_of, lemma_last_index_of_bounds, lowercase, starts_with,
    string_of,
};

verus! {

/// What is known of a command: its path, its display name and its weight.
pub struct Entry {
    pub path: Seq<char>,
    pub name: Seq<char>,
    pub weight: u32,
}

/// An executable with the weight that the history has for its name.
pub struct Command {
    pub path: String,
    pub name: String,
    pub weight: u32,
}

impl View for Command {
    type V = Entry;

    open spec fn view(&self) -> Entry {
        Entry { path: self.path@, name: self.name@, weight: self.weight }
    }
}

impl DeepView for Command {
    type V = Entry;

    open spec fn deep_view(&self) -> Entry {
        self@
    }
}

impl Command {
    /// The name of the executable: the display name of its path.
    pub fn binary(&self) -> (name: String)
        requires
            display_name(self.path@) is Some,
        ensures
            Some(name@) == display_name(self.path@),
    {
        match CommandList::filename(self.path.as_str()) {
            Some(name) => name,
            None => unreached(),
        }
    }
}

/// The display name of a path: its last segment, where segments are parted
/// by `/`. An empty segment and the segment `.` are passed over, and a path
/// that ends in `..`, or that holds no segment to show, has no display name.
pub open spec fn display_name(path: Seq<char>) -> Option<Seq<char>>
    decreases path.len(),
    via display_name_decreases
{
    let slash = last_index_of(path, '/');
    let last = path.skip(slash + 1);
    if last == seq!['.', '.'] {
        None
    } else if last.len() == 0 || last == seq!['.'] {
        if slash < 0 {
            None
        } else {
            display_name(path.take(slash))
        }
    } else {
        Some(last)
    }
}

#[via_fn]
proof fn display_name_decreases(path: Seq<char>) {
    lemma_last_index_of_bounds(path, '/');
}

/// Whether a command of the name `name` passes `filter`: every name passes
/// no filter and the empty one, and any other filter asks that the name in
/// lowercase begins with the filter in lowercase.
pub open spec fn passes(name: Seq<char>, filter: Option<Seq<char>>) -> bool {
    match filter {
        None => true,
        Some(input) => input.len() == 0 || lowercase(input).is_prefix_of(lowercase(name)),
    }
}

/// The entry that the executable at `path` gives under `filter`: none where
/// the path has no display name, or where the name does not pass.
pub open spec fn entry_for(path: Seq<char>, filter: Option<Seq<char>>, history: Ledger) -> Option<
    Entry,
> {
    match display_name(path) {
        Some(name) => if passes(name, filter) {
            Some(Entry { path, name, weight: history.weight(name) })
        } else {
            None
        },
        None => None,
    }
}

/// The entries that `paths` give under `filter`, in the order of `paths`.
pub open spec fn selected(paths: Seq<Seq<char>>, filter: Option<Seq<char>>, history: Ledger) -> Seq<
    Entry,
>
    decreases paths.len(),
{
    if paths.len() == 0 {
        Seq::empty()
    } else {
        let before = selected(paths.drop_last(), filter, history);
        match entry_for(paths.last(), filter, history) {
            Some(entry) => before.push(entry),
            None => before,
        }
    }
}

/// Where the selected entries come from: the positions in `paths`, which go
/// up, of all paths that give an entry.
proof fn lemma_selected_sources(
    paths: Seq<Seq<char>>,
    filter: Option<Seq<char>>,
    history: Ledger,
) -> (sources: Seq<int>)
    ensures
        sources.len() == selected(paths, filter, history).len(),
        forall|k: int|
            0 <= k < sources.len() ==> 0 <= #[trigger] sources[k] < paths.len() && entry_for(
                paths[sources[k]],
                filter,
                history,
            ) == Some(selected(paths, filter, history)[k]),
        forall|k: int, l: int| 0 <= k < l < sources.len() ==> sources[k] < sources[l],
        forall|p: int|
            0 <= p < paths.len() && entry_for(paths[p], filter, history) is Some ==> exists|k: int|
                0 <= k < sources.len() && sources[k] == p,
    decreases paths.len(),
{
    if paths.len() == 0 {
        Seq::empty()
    } else {
        let rest = paths.drop_last();
        let before = lemma_selected_sources(rest, filter, history);
        let sources = if entry_for(paths.last(), filter, history) is Some {
            before.push(paths.len() - 1)
        } else {
            before
        };
        assert forall|p: int|
            0 <= p < paths.len() && entry_for(paths[p], filter, history) is Some implies exists|
            k: int,
        |
            0 <= k < sources.len() && sources[k] == p by {
            if p < rest.len() {
                assert(rest[p] == paths[p]);
                let k = choose|k: int| 0 <= k < before.len() && before[k] == p;
                assert(sources[k] == p);
            } else {
                assert(sources[sources.len() - 1] == p);
            }
        }
        sources
    }
}

/// Selection: a filtered list holds the entries of the paths that have a
/// display name which passes the filter, and nothing else.
pub proof fn lemma_filter_selects(
    list: Seq<Entry>,
    paths: Seq<Seq<char>>,
    filter: Option<Seq<char>>,
    history: Ledger,
)
    requires
        is_ranking(list, selected(paths, filter, history)),
    ensures
        list.len() <= paths.len(),
        forall|i: int|
            0 <= i < list.len() ==> exists|p: int|
                0 <= p < paths.len() && entry_for(paths[p], filter, history) == Some(
                    #[trigger] list[i],
                ),
        forall|p: int|
            0 <= p < paths.len() && entry_for(#[trigger] paths[p], filter, history) is Some
                ==> list.contains(entry_for(paths[p], filter, history).unwrap()),
{
    let entries = selected(paths, filter, history);
    let sources = lemma_selected_sources(paths, filter, history);
    lemma_ranking_permutes(list, entries);
    list.to_multiset_ensures();
    entries.to_multiset_ensures();
    assert(sources.len() <= paths.len()) by {
        lemma_increasing_fits(sources, paths.len() as int);
    }
    assert forall|i: int| 0 <= i < list.len() implies exists|p: int|
        0 <= p < paths.len() && entry_for(paths[p], filter, history) == Some(
            #[trigger] list[i],
        ) by {
        assert(list.to_multiset().count(list[i]) > 0);
        let k = choose|k: int| 0 <= k < entries.len() && entries[k] == list[i];
        assert(entry_for(paths[sources[k]], filter, history) == Some(list[i]));
    }
    assert forall|p: int|
        0 <= p < paths.len() && entry_for(
            #[trigger] paths[p],
            filter,
            history,
        ) is Some implies list.contains(entry_for(paths[p], filter, history).unwrap()) by {
        let k = choose|k: int| 0 <= k < sources.len() && sources[k] == p;
        assert(entries.to_multiset().count(entries[k]) > 0);
    }
}

/// A listed command has the display name of its path, a name that passes
/// the filter, and the weight that the history has for that name.
pub proof fn lemma_listed_entry(
    list: Seq<Entry>,
    paths: Seq<Seq<char>>,
    filter: Option<Seq<char>>,
    history: Ledger,
    i: int,
)
    requires
        is_ranking(list, selected(paths, filter, history)),
        0 <= i < list.len(),
    ensures
        display_name(list[i].path) == Some(list[i].name),
        passes(list[i].name, filter),
        list[i].weight == history.weight(list[i].name),
{
    lemma_filter_selects(list, paths, filter, history);
    let p = choose|p: int|
        0 <= p < paths.len() && entry_for(paths[p], filter, history) == Some(list[i]);
    assert(entry_for(paths[p], filter, history) == Some(list[i]));
}

/// The empty filter selects what no filter selects.
pub proof fn lemma_empty_filter_is_none(paths: Seq<Seq<char>>, history: Ledger)
    ensures
        selected(paths, Some(Seq::empty()), history) == selected(paths, None, history),
    decreases paths.len(),
{
    if paths.len() > 0 {
        lemma_empty_filter_is_none(paths.drop_last(), history);
    }
}

/// How many commands a filter selects does not depend on the history.
pub proof fn lemma_selected_len(
    paths: Seq<Seq<char>>,
    filter: Option<Seq<char>>,
    first: Ledger,
    second: Ledger,
)
    ensures
        selected(paths, filter, first).len() == selected(paths, filter, second).len(),
    decreases paths.len(),
{
    if paths.len() > 0 {
        lemma_selected_len(paths.drop_last(), filter, first, second);
    }
}

/// Positions that go up and lie under `bound` are no more than `bound`.
proof fn lemma_increasing_fits(positions: Seq<int>, bound: int)
    requires
        0 <= bound,
        forall|k: int| 0 <= k < positions.len() ==> 0 <= #[trigger] positions[k] < bound,
        forall|k: int, l: int| 0 <= k < l < positions.len() ==> positions[k] < positions[l],
    ensures
        positions.len() <= bound,
    decreases positions.len(),
{
    if positions.len() > 0 {
        let rest = positions.drop_last();
        let last = positions.last();
        lemma_increasing_fits(rest, last);
    }
}

/// Without a filter, and with the empty one, every path that has a display
/// name is listed.
pub proof fn lemma_empty_filter_lists_all(
    list: Seq<Entry>,
    paths: Seq<Seq<char>>,
    filter: Option<Seq<char>>,
    history: Ledger,
)
    requires
        is_ranking(list, selected(paths, filter, history)),
        filter matches Some(input) ==> input.len() == 0,
        forall|p: int| 0 <= p < paths.len() ==> display_name(#[trigger] paths[p]) is Some,
    ensures
        list.len() == paths.len(),
{
    lemma_ranking_permutes(list, selected(paths, filter, history));
    lemma_all_selected(paths, filter, history);
}

proof fn lemma_all_selected(paths: Seq<Seq<char>>, filter: Option<Seq<char>>, history: Ledger)
    requires
        forall|p: int| 0 <= p < paths.len() ==> entry_for(#[trigger] paths[p], filter, history) is Some,
    ensures
        selected(paths, filter, history).len() == paths.len(),
    decreases paths.len(),
{
    if paths.len() > 0 {
        lemma_all_selected(paths.drop_last(), filter, history);
    }
}

proof fn lemma_none_selected(paths: Seq<Seq<char>>, filter: Option<Seq<char>>, history: Ledger)
    requires
        forall|p: int| 0 <= p < paths.len() ==> entry_for(#[trigger] paths[p], filter, history) is None,
    ensures
        selected(paths, filter, history).len() == 0,
    decreases paths.len(),
{
    if paths.len() > 0 {
        lemma_none_selected(paths.drop_last(), filter, history);
    }
}

/// A filter that is not empty and is longer in lowercase than every display
/// name lists nothing.
pub proof fn lemma_long_filter_lists_none(
    list: Seq<Entry>,
    paths: Seq<Seq<char>>,
    input: Seq<char>,
    history: Ledger,
)
    requires
        is_ranking(list, selected(paths, Some(input), history)),
        input.len() > 0,
        forall|p: int|
            0 <= p < paths.len() ==> (display_name(#[trigger] paths[p]) matches Some(name)
                ==> lowercase(name).len() < lowercase(input).len()),
    ensures
        list.len() == 0,
{
    lemma_ranking_permutes(list, selected(paths, Some(input), history));
    assert forall|p: int| 0 <= p < paths.len() implies entry_for(
        #[trigger] paths[p],
        Some(input),
        history,
    ) is None by {}
    lemma_none_selected(paths, Some(input), history);
}

/// Stability: two listed commands of one weight stand in the order in which
/// their paths stand in `paths`, whatever the filter.
pub proof fn lemma_filter_is_stable(
    list: Seq<Entry>,
    paths: Seq<Seq<char>>,
    filter: Option<Seq<char>>,
    history: Ledger,
    i: int,
    j: int,
)
    requires
        is_ranking(list, selected(paths, filter, history)),
        0 <= i < j < list.len(),
        list[i].weight == list[j].weight,
    ensures
        exists|p: int, q: int|
            0 <= p < q < paths.len() && entry_for(paths[p], filter, history) == Some(list[i])
                && entry_for(paths[q], filter, history) == Some(list[j]),
{
    let entries = selected(paths, filter, history);
    let sources = lemma_selected_sources(paths, filter, history);
    lemma_ranking_is_stable(list, entries, i, j);
    let (k, l) = choose|k: int, l: int|
        0 <= k < l < entries.len() && entries[k] == list[i] && entries[l] == list[j];
    let p = sources[k];
    let q = sources[l];
    assert(0 <= p < q < paths.len() && entry_for(paths[p], filter, history) == Some(list[i])
        && entry_for(paths[q], filter, history) == Some(list[j]));
}

/// Stability, seen from the paths: of two paths that give entries of one
/// weight, the entry of the earlier path is listed before that of the later,
/// whatever the filter.
pub proof fn lemma_filter_keeps_order(
    list: Seq<Entry>,
    paths: Seq<Seq<char>>,
    filter: Option<Seq<char>>,
    history: Ledger,
    p: int,
    q: int,
)
    requires
        is_ranking(list, selected(paths, filter, history)),
        0 <= p < q < paths.len(),
        entry_for(paths[p], filter, history) is Some,
        entry_for(paths[q], filter, history) is Some,
        entry_for(paths[p], filter, history).unwrap().weight == entry_for(
            paths[q],
            filter,
            history,
        ).unwrap().weight,
    ensures
        exists|i: int, j: int|
            0 <= i < j < list.len() && Some(list[i]) == entry_for(paths[p], filter, history)
                && Some(list[j]) == entry_for(paths[q], filter, history),
{
    let entries = selected(paths, filter, history);
    let sources = lemma_selected_sources(paths, filter, history);
    let k = choose|k: int| 0 <= k < sources.len() && sources[k] == p;
    let l = choose|l: int| 0 <= l < sources.len() && sources[l] == q;
    lemma_ranking_keeps_order(list, entries, k, l);
    let (i, j) = choose|i: int, j: int|
        0 <= i < j < list.len() && list[i] == entries[k] && list[j] == entries[l];
    assert(0 <= i < j < list.len() && Some(list[i]) == entry_for(paths[p], filter, history)
        && Some(list[j]) == entry_for(paths[q], filter, history));
}

/// The commands to choose from, and those of them that match what was typed.
pub struct CommandList {
    pub initial: Vec<String>,
    pub filtered: Vec<Command>,
}

impl CommandList {
    /// Whether the list shows what `filter` leaves of its commands, ranked
    /// by the weights of `history`.
    pub open spec fn shows(&self, filter: Option<Seq<char>>, history: Ledger) -> bool {
        is_ranking(self.filtered.deep_view(), selected(self.initial.deep_view(), filter, history))
    }

    /// The list of the commands that the scans of the search directories
    /// found, all of them shown. A directory that cannot be read is an error.
    pub fn new(app_config: &AppConfig, scans: &Vec<Scan>) -> (made: Result<CommandList, ScanError>)
        ensures
            match made {
                Ok(list) => !any_unreadable(scans.deep_view(), scans.len() as int)
                    && list.initial.deep_view() == catalog(app_config.config, scans.deep_view())
                    && list.shows(None, app_config.history@),
                Err(error) => error.directory < scans.len()
                    && scans.deep_view()[error.directory as int] is Unreadable && !any_unreadable(
                    scans.deep_view(),
                    error.directory as int,
                ),
            },
    {
        match gather_commands(&app_config.config, scans) {
            Ok(initial) => {
                let filtered = Self::filter_data(None, &initial, &app_config.history);
                Ok(CommandList { initial, filtered })
            },
            Err(error) => Err(error),
        }
    }

    /// Shows what `filter` leaves of the commands, ranked by the weights of
    /// `history`.
    pub fn filter(&mut self, filter: &String, history: &History)
        ensures
            final(self).initial == old(self).initial,
            final(self).shows(Some(filter@), history@),
    {
        self.filtered = Self::filter_data(Some(filter), &self.initial, history);
    }

    /// How many commands are shown.
    pub fn filtered_len(&self) -> (len: usize)
        ensures
            len == self.filtered.len(),
    {
        self.filtered.len()
    }

    /// The display name of `path`.
    pub fn filename(path: &str) -> (name: Option<String>)
        ensures
            match display_name(path@) {
                Some(shown) => name matches Some(n) && n@ == shown,
                None => name is None,
            },
    {
        let chars = chars_of(path);
        let mut end: usize = chars.len();
        assert(chars@.take(end as int) == chars@);
        loop
            invariant
                end <= chars.len(),
                display_name(chars@.take(end as int)) == display_name(path@),
            decreases end,
        {
            let ghost head = chars@.take(end as int);
            let mut start: usize = end;
            while start > 0 && chars[start - 1] != '/'
                invariant
                    start <= end <= chars.len(),
                    forall|k: int| start <= k < end ==> chars@[k] != '/',
                decreases start,
            {
                start -= 1;
            }
            proof {
                lemma_last_index_of(head, '/', start - 1);
                assert(head.skip(start as int) == chars@.subrange(start as int, end as int));
            }
            let ghost last = chars@.subrange(start as int, end as int);
            let length: usize = end - start;
            if length == 2 && chars[start] == '.' && chars[start + 1] == '.' {
                assert(last == seq!['.', '.']);
                return None;
            }
            if length == 0 || (length == 1 && chars[start] == '.') {
                assert(last.len() == 0 || last == seq!['.']);
                if start == 0 {
                    return None;
                }
                assert(head.take(start - 1) == chars@.take(start - 1));
                end = start - 1;
            } else {
                assert(last != seq!['.']) by {
                    if last.len() == 1 {
                        assert(last[0] == chars@[start as int]);
                    }
                }
                return Some(string_of(&chars, start, end));
            }
        }
    }

    /// The commands of `data` that pass `filter`, each with the weight that
    /// `history` has for its name, ranked: the heaviest first, and commands
    /// of one weight in the order of `data`.
    pub fn filter_data(filter: Option<&String>, data: &Vec<String>, history: &History) -> (list:
        Vec<Command>)
        ensures
            is_ranking(
                list.deep_view(),
                selected(data.deep_view(), filter.deep_view(), history@),
            ),
    {
        let needle: Option<Vec<char>> = match filter {
            Some(input) => if input.as_str().is_empty() {
                None
            } else {
                Some(chars_of(input.as_str().to_lowercase().as_str()))
            },
            None => None,
        };
        let ghost paths = data.deep_view();
        let mut list: Vec<Command> = Vec::new();
        let mut i: usize = 0;
        while i < data.len()
            invariant
                i <= data.len(),
                paths == data.deep_view(),
                match needle {
                    Some(lower) => filter matches Some(input) && input@.len() > 0 && lower@
                        == lowercase(input@),
                    None => filter matches Some(input) ==> input@.len() == 0,
                },
                list.deep_view() == selected(paths.take(i as int), filter.deep_view(), history@),
            decreases data.len() - i,
        {
            let path = &data[i];
            assert(paths.take(i + 1).drop_last() == paths.take(i as int));
            match Self::filename(path.as_str()) {
                Some(name) => {
                    let keep = match &needle {
                        Some(lower) => {
                            let shown = chars_of(name.as_str().to_lowercase().as_str());
                            starts_with(&shown, lower)
                        },
                        None => true,
                    };
                    if keep {
                        let weight: u32 = history.get_weight(&name);
                        let command = Command { path: path.clone(), name, weight };
                        list.push(command);
                    }
                },
                None => {},
            }
            i += 1;
        }
        assert(paths.take(i as int) == paths);
        rank(list)
    }
}

} // verus!
