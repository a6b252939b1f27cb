//! Usage history: how often each command was launched, and the text
//! it is stored as, one line `name|weight` per command.

use vstd::prelude::*;
use vstd::hash_map::StringHashMap;
use crate::decimal::{all_digits, digits_only, lemma_numeral, numeral, push_numeral, read_numeral, value_of};
use crate::text::{chars_of, last_index_of, lemma_last_index_of, string_of};

verus! {

/// What a history holds: the names it knows, in the order in which they were
/// first recorded, and the weight of each.
pub struct Ledger {
    pub names: Seq<Seq<char>>,
    pub weights: Map<Seq<char>, u32>,
}

impl Ledger {
    /// The ledger without any name.
    pub open spec fn empty() -> Ledger {
        Ledger { names: Seq::empty(), weights: Map::empty() }
    }

    /// Every name is listed once, and exactly the listed names have a weight.
    pub open spec fn wf(self) -> bool {
        &&& self.names.no_duplicates()
        &&& forall|name: Seq<char>| self.weights.contains_key(name) <==> self.names.contains(name)
    }

    /// The weight of `name`: 0 where the ledger does not know it.
    pub open spec fn weight(self, name: Seq<char>) -> u32 {
        if self.weights.contains_key(name) {
            self.weights[name]
        } else {
            0
        }
    }

    /// The ledger in which `name` has the weight `weight`, and all else is as
    /// before. A new name goes to the end of the list.
    pub open spec fn put(self, name: Seq<char>, weight: u32) -> Ledger {
        Ledger {
            names: if self.weights.contains_key(name) {
                self.names
            } else {
                self.names.push(name)
            },
            weights: self.weights.insert(name, weight),
        }
    }

    /// The ledger after one more launch of `name`.
    pub open spec fn bump(self, name: Seq<char>) -> Ledger
        recommends
            self.weight(name) < u32::MAX,
    {
        self.put(name, (self.weight(name) + 1) as u32)
    }

    /// The ledger after reading one line: a well-formed line sets the weight
    /// of its name, any other line changes nothing.
    pub open spec fn record(self, line: Seq<char>) -> Ledger {
        match entry_of(line) {
            Some((name, weight)) => self.put(name, weight),
            None => self,
        }
    }

    /// The ledger after reading `text` line by line. A line feed ends a line,
    /// and a carriage return just before it does not belong to the line; what
    /// follows the last line feed is a line too, unless it is empty.
    pub open spec fn read(self, text: Seq<char>) -> Ledger
        decreases text.len(),
    {
        if text.len() == 0 {
            self
        } else {
            let end = line_end(text) as int;
            if end < text.len() {
                self.record(without_cr(text.take(end))).read(text.skip(end + 1))
            } else {
                self.record(text)
            }
        }
    }

    /// The text of the ledger: the lines of its names, in the order of the list.
    pub open spec fn text(self) -> Seq<char> {
        lines_of(self.names, self.weights)
    }
}

/// The weight that a numeral stands for: its number, or 0 where that is more
/// than a weight can hold.
pub open spec fn weight_of(digits: Seq<char>) -> u32 {
    if value_of(digits) <= u32::MAX {
        value_of(digits) as u32
    } else {
        0
    }
}

/// The name and weight that a line stands for. A well-formed line is a name,
/// a `|` and a numeral of one digit or more; the numeral holds no `|`, so it
/// is the last `|` of the line that parts them.
pub open spec fn entry_of(line: Seq<char>) -> Option<(Seq<char>, u32)> {
    let bar = last_index_of(line, '|');
    let digits = line.skip(bar + 1);
    if bar >= 0 && digits.len() >= 1 && all_digits(digits) {
        Some((line.take(bar), weight_of(digits)))
    } else {
        None
    }
}

/// The line that stands for `name` with `weight`.
pub open spec fn line_of(name: Seq<char>, weight: u32) -> Seq<char> {
    name.push('|') + numeral(weight as nat)
}

/// The length of the first line of `text`: the index of its first line feed,
/// or its length where it holds none.
pub open spec fn line_end(text: Seq<char>) -> nat
    decreases text.len(),
{
    if text.len() == 0 || text[0] == '\n' {
        0
    } else {
        1 + line_end(text.skip(1))
    }
}

/// `line` without the carriage return at its end, if it has one.
pub open spec fn without_cr(line: Seq<char>) -> Seq<char> {
    if line.len() > 0 && line.last() == '\r' {
        line.drop_last()
    } else {
        line
    }
}

/// The lines of `names` with their weights, each closed by a line feed.
pub open spec fn lines_of(names: Seq<Seq<char>>, weights: Map<Seq<char>, u32>) -> Seq<char>
    decreases names.len(),
{
    if names.len() == 0 {
        Seq::empty()
    } else {
        line_of(names[0], weights[names[0]]).push('\n') + lines_of(names.skip(1), weights)
    }
}

/// A prefix of a line that its first line feed ends, or that is the whole
/// text, is the first line.
pub proof fn lemma_line_end(text: Seq<char>, end: int)
    requires
        0 <= end <= text.len(),
        forall|i: int| 0 <= i < end ==> text[i] != '\n',
        end < text.len() ==> text[end] == '\n',
    ensures
        line_end(text) == end,
    decreases end,
{
    if end > 0 {
        lemma_line_end(text.skip(1), end - 1);
    }
}

/// `put` keeps a ledger well-formed, gives the name its weight and leaves
/// every other name's weight as it was.
pub proof fn lemma_put(ledger: Ledger, name: Seq<char>, weight: u32)
    requires
        ledger.wf(),
    ensures
        ledger.put(name, weight).wf(),
        ledger.put(name, weight).weight(name) == weight,
        forall|other: Seq<char>|
            other != name ==> ledger.put(name, weight).weight(other) == ledger.weight(other),
{
    let after = ledger.put(name, weight);
    if !ledger.weights.contains_key(name) {
        assert(!ledger.names.contains(name));
        assert forall|k: Seq<char>| after.weights.contains_key(k) <==> after.names.contains(k) by {
            if ledger.names.contains(k) {
                let i = choose|i: int| 0 <= i < ledger.names.len() && ledger.names[i] == k;
                assert(after.names[i] == k);
            }
            if k == name {
                assert(after.names[ledger.names.len() as int] == k);
            }
        }
    }
}

/// The usage history of the commands: a weight for each name that was ever
/// launched, 0 for every other.
pub struct History {
    names: Vec<String>,
    weights: StringHashMap<u32>,
}

impl View for History {
    type V = Ledger;

    closed spec fn view(&self) -> Ledger {
        Ledger { names: Seq::new(self.names@.len(), |i: int| self.names@[i]@), weights: self.weights@ }
    }
}

impl History {
    /// The invariant of a history, which holds of every history: that of its
    /// ledger.
    #[verifier::type_invariant]
    pub open spec fn wf(&self) -> bool {
        self@.wf()
    }

    /// The history that knows no name.
    pub fn new() -> (h: History)
        ensures
            h@ == Ledger::empty(),
            h@.wf(),
    {
        let names: Vec<String> = Vec::new();
        let weights: StringHashMap<u32> = StringHashMap::new();
        assert(Seq::new(names@.len(), |i: int| names@[i]@) =~= Seq::<Seq<char>>::empty());
        History { names, weights }
    }

    /// The weight of `name`, 0 where the history does not know it.
    pub fn get_weight(&self, name: &String) -> (weight: u32)
        ensures
            weight == self@.weight(name@),
    {
        match self.weights.get(name.as_str()) {
            Some(weight) => *weight,
            None => 0,
        }
    }

    /// Gives `name` the weight `weight`.
    fn set(&mut self, name: String, weight: u32)
        ensures
            final(self)@ == old(self)@.put(name@, weight),
    {
        proof {
            use_type_invariant(&*self);
        }
        let mut taken = History::new();
        std::mem::swap(self, &mut taken);
        let History { mut names, mut weights } = taken;
        let ghost before = old(self)@;
        if !weights.contains_key(name.as_str()) {
            names.push(name.clone());
        }
        weights.insert(name, weight);
        proof {
            lemma_put(before, name@, weight);
            assert(Seq::new(names@.len(), |i: int| names@[i]@) =~= before.put(name@, weight).names);
        }
        *self = History { names, weights };
    }

    /// Counts one more launch of `name`.
    pub fn increment(&mut self, name: String)
        requires
            old(self)@.weight(name@) < u32::MAX,
        ensures
            final(self)@ == old(self)@.bump(name@),
            final(self)@.wf(),
    {
        let weight: u32 = self.get_weight(&name);
        self.set(name, weight + 1);
        proof {
            use_type_invariant(&*self);
        }
    }

    /// The history that `text` stands for: its lines are read in order, a
    /// later line for a name replaces an earlier one, and a line that is not
    /// well-formed is passed over.
    pub fn from_text(text: &str) -> (h: History)
        ensures
            h@ == Ledger::empty().read(text@),
            h@.wf(),
    {
        let chars = chars_of(text);
        let mut h = History::new();
        let mut pos: usize = 0;
        assert(chars@.skip(0) == chars@);
        while pos < chars.len()
            invariant
                pos <= chars.len(),
                h@.read(chars@.skip(pos as int)) == Ledger::empty().read(chars@),
            decreases chars.len() - pos,
        {
            let ghost rest = chars@.skip(pos as int);
            let mut end: usize = pos;
            while end < chars.len() && chars[end] != '\n'
                invariant
                    pos <= end <= chars.len(),
                    forall|i: int| pos <= i < end ==> chars@[i] != '\n',
                decreases chars.len() - end,
            {
                end += 1;
            }
            proof {
                lemma_line_end(rest, end - pos);
            }
            let mut stop: usize = end;
            let next: usize = if end < chars.len() {
                if end > pos && chars[end - 1] == '\r' {
                    stop = end - 1;
                }
                end + 1
            } else {
                end
            };
            proof {
                if end < chars.len() {
                    assert(without_cr(rest.take(end - pos)) == chars@.subrange(
                        pos as int,
                        stop as int,
                    ));
                    assert(rest.skip(end - pos + 1) == chars@.skip(next as int));
                }
            }
            match read_entry(&chars, pos, stop) {
                Some((name, weight)) => {
                    h.set(name, weight);
                },
                None => {},
            }
            pos = next;
        }
        proof {
            use_type_invariant(&h);
        }
        h
    }

    /// The text that stands for the history: for each name, in the order in
    /// which the names were first recorded, the line `name|weight`.
    pub fn to_text(&self) -> (text: String)
        ensures
            text@ == self@.text(),
    {
        proof {
            use_type_invariant(self);
        }
        let mut text = String::new();
        let mut i: usize = 0;
        assert(self@.names.skip(0) == self@.names);
        while i < self.names.len()
            invariant
                i <= self.names.len(),
                self.names.len() == self@.names.len(),
                self.wf(),
                text@ + lines_of(self@.names.skip(i as int), self@.weights) == self@.text(),
            decreases self.names.len() - i,
        {
            let ghost before = text@;
            let ghost rest = self@.names.skip(i as int);
            let name = &self.names[i];
            assert(self@.names.contains(name@));
            let weight: u32 = self.get_weight(name);
            text.append(name.as_str());
            text.push('|');
            push_numeral(&mut text, weight);
            text.push('\n');
            proof {
                assert(rest.skip(1) == self@.names.skip(i + 1));
                assert(before + lines_of(rest, self@.weights) == (before + line_of(name@, weight).push(
                    '\n',
                )) + lines_of(rest.skip(1), self@.weights));
            }
            i += 1;
        }
        text
    }
}

/// The name and weight that `chars[from..to]` stands for as a line.
pub fn read_entry(chars: &Vec<char>, from: usize, to: usize) -> (entry: Option<(String, u32)>)
    requires
        from <= to <= chars.len(),
    ensures
        match entry_of(chars@.subrange(from as int, to as int)) {
            Some((name, weight)) => entry matches Some((n, w)) && n@ == name && w == weight,
            None => entry is None,
        },
{
    let ghost line = chars@.subrange(from as int, to as int);
    let mut i: usize = to;
    while i > from && chars[i - 1] != '|'
        invariant
            from <= i <= to <= chars.len(),
            forall|k: int| i <= k < to ==> chars@[k] != '|',
        decreases i,
    {
        i -= 1;
    }
    proof {
        lemma_last_index_of(line, '|', i - from - 1);
    }
    if i == from {
        return None;
    }
    let bar: usize = i - 1;
    assert(line.skip(bar - from + 1) == chars@.subrange(bar + 1, to as int));
    if i == to {
        return None;
    }
    let weight: u32 = match read_numeral(chars, i, to) {
        Some(weight) => weight,
        None => {
            if !digits_only(chars, i, to) {
                return None;
            }
            0
        },
    };
    let name = string_of(chars, from, bar);
    Some((name, weight))
}

/// The name and weight that `line` stands for, where it is well-formed.
pub fn parse_line(line: &str) -> (entry: Option<(String, u32)>)
    ensures
        match entry_of(line@) {
            Some((name, weight)) => entry matches Some((n, w)) && n@ == name && w == weight,
            None => entry is None,
        },
{
    let chars = chars_of(line);
    assert(chars@.subrange(0, chars@.len() as int) == chars@);
    read_entry(&chars, 0, chars.len())
}

/// Whether `name` can stand in a line: it holds no line feed.
pub open spec fn single_line(name: Seq<char>) -> bool {
    forall|i: int| 0 <= i < name.len() ==> name[i] != '\n'
}

/// The line of a name and a weight stands for that name and that weight.
pub proof fn lemma_entry_of_line(name: Seq<char>, weight: u32)
    ensures
        entry_of(line_of(name, weight)) == Some((name, weight)),
{
    let line = line_of(name, weight);
    let digits = numeral(weight as nat);
    lemma_numeral(weight as nat);
    lemma_last_index_of(line, '|', name.len() as int);
    assert(line.skip(name.len() as int + 1) == digits);
}

/// A text that begins with a line and its line feed is read as that line,
/// and then the rest.
pub proof fn lemma_read_line(ledger: Ledger, line: Seq<char>, rest: Seq<char>)
    requires
        single_line(line),
        line.len() == 0 || line.last() != '\r',
    ensures
        ledger.read(line.push('\n') + rest) == ledger.record(line).read(rest),
{
    let text = line.push('\n') + rest;
    lemma_line_end(text, line.len() as int);
    assert(text.take(line.len() as int) == line);
    assert(text.skip(line.len() as int + 1) == rest);
}

/// The ledger that comes of `ledger` by giving each of `names`, in order,
/// the weight that `weights` has for it.
spec fn replay(ledger: Ledger, names: Seq<Seq<char>>, weights: Map<Seq<char>, u32>) -> Ledger
    decreases names.len(),
{
    if names.len() == 0 {
        ledger
    } else {
        replay(ledger.put(names[0], weights[names[0]]), names.skip(1), weights)
    }
}

proof fn lemma_read_lines(ledger: Ledger, names: Seq<Seq<char>>, weights: Map<Seq<char>, u32>)
    requires
        forall|i: int| 0 <= i < names.len() ==> single_line(#[trigger] names[i]),
    ensures
        ledger.read(lines_of(names, weights)) == replay(ledger, names, weights),
    decreases names.len(),
{
    if names.len() > 0 {
        let name = names[0];
        let weight = weights[name];
        let line = line_of(name, weight);
        let rest = lines_of(names.skip(1), weights);
        lemma_numeral(weight as nat);
        lemma_entry_of_line(name, weight);
        lemma_read_line(ledger, line, rest);
        lemma_read_lines(ledger.put(name, weight), names.skip(1), weights);
    }
}

/// The first `k` names of a ledger, with their weights.
spec fn first_names(ledger: Ledger, k: int) -> Ledger {
    Ledger {
        names: ledger.names.take(k),
        weights: Map::new(
            |name: Seq<char>| ledger.names.take(k).contains(name),
            |name: Seq<char>| ledger.weights[name],
        ),
    }
}

proof fn lemma_replay_names(ledger: Ledger, k: int)
    requires
        ledger.wf(),
        0 <= k <= ledger.names.len(),
    ensures
        replay(first_names(ledger, k), ledger.names.skip(k), ledger.weights) == ledger,
    decreases ledger.names.len() - k,
{
    let here = first_names(ledger, k);
    if k == ledger.names.len() {
        assert(ledger.names.take(k) == ledger.names);
        assert(here.weights =~= ledger.weights);
    } else {
        let name = ledger.names[k];
        let rest = ledger.names.skip(k);
        assert(rest.skip(1) == ledger.names.skip(k + 1));
        let next = here.put(name, ledger.weights[name]);
        assert(ledger.names.take(k).push(name) == ledger.names.take(k + 1));
        assert forall|n: Seq<char>| ledger.names.take(k + 1).contains(n) <==> (ledger.names.take(
            k,
        ).contains(n) || n == name) by {
            if n == name {
                assert(ledger.names.take(k + 1)[k] == n);
            }
        }
        assert(next.weights =~= first_names(ledger, k + 1).weights);
        lemma_replay_names(ledger, k + 1);
    }
}

/// Reading the text of a ledger gives the ledger back, names in their order
/// and each with its weight, where no name holds a line feed.
pub proof fn lemma_read_text(ledger: Ledger)
    requires
        ledger.wf(),
        forall|i: int| 0 <= i < ledger.names.len() ==> single_line(#[trigger] ledger.names[i]),
    ensures
        Ledger::empty().read(ledger.text()) == ledger,
{
    lemma_read_lines(Ledger::empty(), ledger.names, ledger.weights);
    assert(ledger.names.take(0) == Seq::<Seq<char>>::empty());
    assert(first_names(ledger, 0).weights =~= Map::<Seq<char>, u32>::empty());
    assert(ledger.names.skip(0) == ledger.names);
    lemma_replay_names(ledger, 0);
}

/// One more launch of `name`, written to text and read again, leaves `name`
/// with its weight and one more, and every other name with its weight.
pub proof fn lemma_bump_round_trip(ledger: Ledger, name: Seq<char>)
    requires
        ledger.wf(),
        ledger.weight(name) < u32::MAX,
        single_line(name),
        forall|i: int| 0 <= i < ledger.names.len() ==> single_line(#[trigger] ledger.names[i]),
    ensures
        Ledger::empty().read(ledger.bump(name).text()).weight(name) == ledger.weight(name) + 1,
        forall|other: Seq<char>|
            other != name ==> Ledger::empty().read(ledger.bump(name).text()).weight(other)
                == ledger.weight(other),
{
    let weight = (ledger.weight(name) + 1) as u32;
    let after = ledger.bump(name);
    lemma_put(ledger, name, weight);
    lemma_read_text(after);
}

} // verus!
