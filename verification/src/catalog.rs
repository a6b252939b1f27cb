//! The catalog: which of the entries that were found in the search
//! directories are commands.

use vstd::prelude::*;
use vstd::multiset::Multiset;
use vstd::seq_lib::{lemma_multiset_commutative, to_multiset_build, to_multiset_remove};
use crate::config::Config;
use crate::text::{chars_of, last_index_of, lemma_last_index_of_bounds, same_text, string_of};

verus! {

/// What is known of one entry of a directory.
pub struct Item {
    pub path: Seq<char>,
    pub name: Seq<char>,
    pub is_file: bool,
    pub mode: u32,
}

/// One entry of a directory, as a scan found it: its path, its name, whether
/// it is a regular file, and its permission bits.
pub struct Found {
    pub path: String,
    pub name: String,
    pub is_file: bool,
    pub mode: u32,
}

impl View for Found {
    type V = Item;

    open spec fn view(&self) -> Item {
        Item { path: self.path@, name: self.name@, is_file: self.is_file, mode: self.mode }
    }
}

impl DeepView for Found {
    type V = Item;

    open spec fn deep_view(&self) -> Item {
        self@
    }
}

/// What is known of one search directory.
pub enum Listing {
    Absent,
    Unreadable,
    Listed(Seq<Item>),
}

/// The outcome of the scan of one search directory: it is no directory, or
/// it cannot be read, or it holds these entries.
pub enum Scan {
    Absent,
    Unreadable,
    Listed(Vec<Found>),
}

impl DeepView for Scan {
    type V = Listing;

    open spec fn deep_view(&self) -> Listing {
        match self {
            Scan::Absent => Listing::Absent,
            Scan::Unreadable => Listing::Unreadable,
            Scan::Listed(entries) => Listing::Listed(entries.deep_view()),
        }
    }
}

/// A search directory could not be read: `directory` is its position among
/// the scans, and no directory before it failed.
#[derive(Debug, Clone, Copy, PartialEq, Eq, Structural)]
pub struct ScanError {
    pub directory: usize,
}

/// Whether a file with the permission bits `mode` may be executed by its
/// owner, by its group or by anyone else.
pub open spec fn executable(mode: u32) -> bool {
    mode & 0o111 != 0
}

/// Whether `item` is a command under `config`: a regular file that may be
/// executed, with a name that the policy lets in.
pub open spec fn keeps(config: Config, item: Item) -> bool {
    item.is_file && executable(item.mode) && config.permits(item.name)
}

/// The paths of the commands among `items`, in the order of `items`.
pub open spec fn kept(config: Config, items: Seq<Item>) -> Seq<Seq<char>>
    decreases items.len(),
{
    if items.len() == 0 {
        Seq::empty()
    } else if keeps(config, items.last()) {
        kept(config, items.drop_last()).push(items.last().path)
    } else {
        kept(config, items.drop_last())
    }
}

/// The paths of the commands in `listings`: those of the first directory,
/// then those of the second, and so on.
pub open spec fn catalog(config: Config, listings: Seq<Listing>) -> Seq<Seq<char>>
    decreases listings.len(),
{
    if listings.len() == 0 {
        Seq::empty()
    } else {
        catalog(config, listings.drop_last()) + match listings.last() {
            Listing::Listed(items) => kept(config, items),
            _ => Seq::empty(),
        }
    }
}

/// Whether a directory at a position under `end` could not be read.
pub open spec fn any_unreadable(listings: Seq<Listing>, end: int) -> bool {
    exists|i: int| 0 <= i < end && i < listings.len() && listings[i] is Unreadable
}

/// The commands of one directory.
fn gather_directory(config: &Config, entries: &Vec<Found>, list: &mut Vec<String>)
    ensures
        final(list).deep_view() == old(list).deep_view() + kept(*config, entries.deep_view()),
{
    let ghost before = list.deep_view();
    let ghost items = entries.deep_view();
    let mut i: usize = 0;
    while i < entries.len()
        invariant
            i <= entries.len(),
            items == entries.deep_view(),
            list.deep_view() == before + kept(*config, items.take(i as int)),
        decreases entries.len() - i,
    {
        let entry = &entries[i];
        assert(items.take(i + 1).drop_last() == items.take(i as int));
        if entry.is_file && entry.mode & 0o111 != 0 && config.allows(entry.name.as_str()) {
            list.push(entry.path.clone());
            assert(before + kept(*config, items.take(i as int)).push(entry.path@) == (before + kept(
                *config,
                items.take(i as int),
            )).push(entry.path@));
        }
        i += 1;
    }
    assert(items.take(i as int) == items);
}

/// The paths of all commands that the scans found, in the order of the
/// scans and, within a directory, in the order of its entries. No command is
/// left out because another has its name. A directory that cannot be read is
/// an error: that of the first such directory.
pub fn gather_commands(config: &Config, scans: &Vec<Scan>) -> (commands: Result<
    Vec<String>,
    ScanError,
>)
    ensures
        match commands {
            Ok(list) => !any_unreadable(scans.deep_view(), scans.len() as int) && list.deep_view()
                == catalog(*config, scans.deep_view()),
            Err(error) => error.directory < scans.len()
                && scans.deep_view()[error.directory as int] is Unreadable && !any_unreadable(
                scans.deep_view(),
                error.directory as int,
            ),
        },
{
    let ghost listings = scans.deep_view();
    let mut list: Vec<String> = Vec::new();
    let mut i: usize = 0;
    while i < scans.len()
        invariant
            i <= scans.len(),
            listings == scans.deep_view(),
            !any_unreadable(listings, i as int),
            list.deep_view() == catalog(*config, listings.take(i as int)),
        decreases scans.len() - i,
    {
        assert(listings.take(i + 1).drop_last() == listings.take(i as int));
        match &scans[i] {
            Scan::Absent => {},
            Scan::Unreadable => {
                return Err(ScanError { directory: i });
            },
            Scan::Listed(entries) => {
                gather_directory(config, entries, &mut list);
            },
        }
        i += 1;
    }
    assert(listings.take(i as int) == listings);
    Ok(list)
}

/// The parts of `text` that `at` parts: one more than `text` holds of `at`,
/// and so one empty part for the empty text.
pub open spec fn split(text: Seq<char>, at: char) -> Seq<Seq<char>>
    decreases text.len(),
    via split_decreases
{
    let last = last_index_of(text, at);
    if last < 0 {
        seq![text]
    } else {
        split(text.take(last), at).push(text.skip(last + 1))
    }
}

#[via_fn]
proof fn split_decreases(text: Seq<char>, at: char) {
    lemma_last_index_of_bounds(text, at);
}

/// `items` without the items that stand in it a second time or more.
pub open spec fn first_of_each(items: Seq<Seq<char>>) -> Seq<Seq<char>>
    decreases items.len(),
{
    if items.len() == 0 {
        Seq::empty()
    } else if items.drop_last().contains(items.last()) {
        first_of_each(items.drop_last())
    } else {
        first_of_each(items.drop_last()).push(items.last())
    }
}

/// The parts of `text` that `at` parts.
pub fn split_text(text: &str, at: char) -> (parts: Vec<String>)
    ensures
        parts.deep_view() == split(text@, at),
{
    let chars = chars_of(text);
    let mut parts: Vec<String> = Vec::new();
    let mut start: usize = 0;
    let mut i: usize = 0;
    while i < chars.len()
        invariant
            start <= i <= chars.len(),
            last_index_of(chars@.take(i as int), at) == start - 1,
            parts.deep_view() == if start == 0 {
                Seq::<Seq<char>>::empty()
            } else {
                split(chars@.take(start - 1), at)
            },
        decreases chars.len() - i,
    {
        let ghost head = chars@.take(i as int);
        assert(chars@.take(i + 1).drop_last() == head);
        if chars[i] == at {
            let part = string_of(&chars, start, i);
            parts.push(part);
            proof {
                assert(head.skip(start as int) == chars@.subrange(start as int, i as int));
                if start > 0 {
                    assert(head.take(start - 1) == chars@.take(start - 1));
                }
            }
            start = i + 1;
        }
        i += 1;
    }
    let part = string_of(&chars, start, chars.len());
    parts.push(part);
    proof {
        assert(chars@.take(i as int) == chars@);
    }
    parts
}

/// Whether the item at `at` stands in `items` before `at` too.
fn stands_before(items: &Vec<String>, at: usize) -> (found: bool)
    requires
        at < items.len(),
    ensures
        found == items.deep_view().take(at as int).contains(items.deep_view()[at as int]),
{
    let ghost all = items.deep_view();
    let mut k: usize = 0;
    while k < at
        invariant
            k <= at < items.len(),
            all == items.deep_view(),
            forall|j: int| 0 <= j < k ==> all[j] != all[at as int],
        decreases at - k,
    {
        if same_text(items[k].as_str(), items[at].as_str()) {
            assert(all.take(at as int)[k as int] == all[at as int]);
            return true;
        }
        k += 1;
    }
    false
}

/// `items` without the items that stand in it a second time or more.
pub fn without_repeats(items: &Vec<String>) -> (firsts: Vec<String>)
    ensures
        firsts.deep_view() == first_of_each(items.deep_view()),
{
    let ghost all = items.deep_view();
    let mut firsts: Vec<String> = Vec::new();
    let mut i: usize = 0;
    while i < items.len()
        invariant
            i <= items.len(),
            all == items.deep_view(),
            firsts.deep_view() == first_of_each(all.take(i as int)),
        decreases items.len() - i,
    {
        assert(all.take(i + 1).drop_last() == all.take(i as int));
        if !stands_before(items, i) {
            firsts.push(items[i].clone());
        }
        i += 1;
    }
    assert(all.take(i as int) == all);
    firsts
}

/// The directories to search, as a search path names them: its parts
/// between colons, each once, in the order in which they first stand there.
pub fn search_dirs(path: &str) -> (dirs: Vec<String>)
    ensures
        dirs.deep_view() == first_of_each(split(path@, ':')),
{
    let parts = split_text(path, ':');
    without_repeats(&parts)
}

/// The paths that `item` adds to a catalog: its own, if it is a command.
spec fn share(config: Config, item: Item) -> Multiset<Seq<char>> {
    if keeps(config, item) {
        Multiset::singleton(item.path)
    } else {
        Multiset::empty()
    }
}

proof fn lemma_kept_last(config: Config, items: Seq<Item>)
    requires
        items.len() > 0,
    ensures
        kept(config, items).to_multiset() == kept(config, items.drop_last()).to_multiset().add(
            share(config, items.last()),
        ),
{
    let before = kept(config, items.drop_last());
    if keeps(config, items.last()) {
        to_multiset_build(before, items.last().path);
        assert(before.to_multiset().insert(items.last().path) =~= before.to_multiset().add(
            share(config, items.last()),
        ));
    }
}

proof fn lemma_kept_remove(config: Config, items: Seq<Item>, i: int)
    requires
        0 <= i < items.len(),
    ensures
        kept(config, items).to_multiset() == kept(config, items.remove(i)).to_multiset().add(
            share(config, items[i]),
        ),
    decreases items.len(),
{
    lemma_kept_last(config, items);
    if i < items.len() - 1 {
        let rest = items.remove(i);
        assert(rest.drop_last() == items.drop_last().remove(i));
        lemma_kept_last(config, rest);
        lemma_kept_remove(config, items.drop_last(), i);
        let a = kept(config, items.drop_last().remove(i)).to_multiset();
        assert(a.add(share(config, items[i])).add(share(config, items.last())) =~= a.add(
            share(config, items.last()),
        ).add(share(config, items[i])));
    }
}

/// The commands of a directory do not depend on the order of its entries,
/// but for their own order.
pub proof fn lemma_kept_up_to_order(config: Config, first: Seq<Item>, second: Seq<Item>)
    requires
        first.to_multiset() == second.to_multiset(),
    ensures
        kept(config, first).to_multiset() == kept(config, second).to_multiset(),
    decreases first.len(),
{
    first.to_multiset_ensures();
    second.to_multiset_ensures();
    if first.len() > 0 {
        let last = first.last();
        assert(first.to_multiset().count(last) > 0);
        let i = choose|i: int| 0 <= i < second.len() && second[i] == last;
        to_multiset_remove(first, first.len() - 1);
        to_multiset_remove(second, i);
        lemma_kept_up_to_order(config, first.drop_last(), second.remove(i));
        lemma_kept_last(config, first);
        lemma_kept_remove(config, second, i);
    }
}

/// Two scans of the same directories agree up to order where each directory
/// has the same outcome in both, with the same entries in whatever order.
pub open spec fn agree_up_to_order(first: Seq<Listing>, second: Seq<Listing>) -> bool {
    &&& first.len() == second.len()
    &&& forall|i: int|
        0 <= i < first.len() ==> match (#[trigger] first[i], second[i]) {
            (Listing::Absent, Listing::Absent) => true,
            (Listing::Unreadable, Listing::Unreadable) => true,
            (Listing::Listed(a), Listing::Listed(b)) => a.to_multiset() == b.to_multiset(),
            _ => false,
        }
}

/// Building the catalog twice, with the same policy and from directories in
/// which nothing has changed, gives the same commands, up to their order:
/// the order in which a directory hands out its entries does not matter.
pub proof fn lemma_catalog_up_to_order(config: Config, first: Seq<Listing>, second: Seq<Listing>)
    requires
        agree_up_to_order(first, second),
    ensures
        catalog(config, first).to_multiset() == catalog(config, second).to_multiset(),
        forall|end: int| any_unreadable(first, end) == any_unreadable(second, end),
    decreases first.len(),
{
    assert forall|end: int| any_unreadable(first, end) == any_unreadable(second, end) by {
        if any_unreadable(second, end) {
            let i = choose|i: int| 0 <= i < end && i < second.len() && second[i] is Unreadable;
            assert(first[i] is Unreadable);
        }
    }
    if first.len() > 0 {
        let a = first.drop_last();
        let b = second.drop_last();
        assert(agree_up_to_order(a, b));
        lemma_catalog_up_to_order(config, a, b);
        let x = match first.last() {
            Listing::Listed(items) => kept(config, items),
            _ => Seq::empty(),
        };
        let y = match second.last() {
            Listing::Listed(items) => kept(config, items),
            _ => Seq::empty(),
        };
        match (first.last(), second.last()) {
            (Listing::Listed(p), Listing::Listed(q)) => {
                lemma_kept_up_to_order(config, p, q);
            },
            _ => {},
        }
        lemma_multiset_commutative(catalog(config, a), x);
        lemma_multiset_commutative(catalog(config, b), y);
    }
}

} // verus!
