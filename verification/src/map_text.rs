//! The description of a world as text: one colony a line, its name first, then its
//! tunnels, each written as a direction, an equals sign and the name of a colony.

use crate::collision::{directions_known, missing_directions, room_for_directions};
use crate::graph::{GraphModel, WorldGraph};
use crate::loader::{
    load_colony, loaded_graph, loaded_table, texts_of, Connection, ConnectionText,
};
use crate::symbols::{SymbolTable, MAX_SYMBOLS};
use vstd::prelude::*;
use vstd::std_specs::iter::IteratorSpec;

verus! {

/// Whether a character is white space, as `char::is_whitespace` of the standard library
/// tells it.
pub uninterp spec fn white_space(c: char) -> bool;

/// `char::is_whitespace`: its answer is given the name `white_space`.
pub assume_specification[ char::is_whitespace ](c: char) -> (white: bool)
    ensures
        white == white_space(c),
;

/// `String::push`: the character is appended to the string.
pub assume_specification[ String::push ](text: &mut String, c: char)
    ensures
        final(text)@ == old(text)@.push(c),
;

/// The words of `line` that end at or after position `i`, where the word that is open at
/// `i` began at `from`; no word is open where `from` is `i`. A word is a longest run of
/// characters without white space.
pub open spec fn words_at(line: Seq<char>, from: int, i: int) -> Seq<Seq<char>>
    decreases line.len() - i,
{
    if i >= line.len() {
        if from < i {
            seq![line.subrange(from, i)]
        } else {
            Seq::empty()
        }
    } else if white_space(line[i]) {
        if from < i {
            seq![line.subrange(from, i)] + words_at(line, i + 1, i + 1)
        } else {
            words_at(line, i + 1, i + 1)
        }
    } else {
        words_at(line, from, i + 1)
    }
}

/// The words of a line, from left to right.
pub open spec fn words(line: Seq<char>) -> Seq<Seq<char>> {
    words_at(line, 0, 0)
}

/// The first equals sign of `word` is at position `i`.
pub open spec fn splits_at(word: Seq<char>, i: int) -> bool {
    &&& 0 <= i < word.len()
    &&& word[i] == '='
    &&& forall|k: int| 0 <= k < i ==> word[k] != '='
}

/// The tunnel that a word describes: what stands before its first equals sign is the
/// direction, what stands behind it the destination. A word without equals sign
/// describes none.
pub open spec fn connection_of(word: Seq<char>) -> Option<ConnectionText> {
    if exists|i: int| splits_at(word, i) {
        let i = choose|i: int| splits_at(word, i);
        Some((word.take(i), word.skip(i + 1)))
    } else {
        None
    }
}

/// The tunnels that the first `n` of the words describe, in their order.
pub open spec fn connections_among(words: Seq<Seq<char>>, n: int) -> Seq<ConnectionText>
    decreases n,
{
    if n <= 0 {
        Seq::empty()
    } else {
        match connection_of(words[n - 1]) {
            Some(connection) => connections_among(words, n - 1).push(connection),
            None => connections_among(words, n - 1),
        }
    }
}

/// A line of the description, read: the name of the colony, and its tunnels.
#[derive(Clone, Debug, PartialEq, Eq)]
pub struct ColonyLine {
    pub name: String,
    pub connections: Vec<Connection>,
}

/// What a line describes: its first word is the name of a colony, and the others
/// describe its tunnels, those without equals sign being passed over. A line without
/// words describes nothing.
pub open spec fn line_entry(line: Seq<char>) -> Option<(Seq<char>, Seq<ConnectionText>)> {
    let all = words(line);
    if all.len() == 0 {
        None
    } else {
        Some((all[0], connections_among(all.skip(1), all.len() - 1)))
    }
}

impl View for ColonyLine {
    type V = (Seq<char>, Seq<ConnectionText>);

    open spec fn view(&self) -> (Seq<char>, Seq<ConnectionText>) {
        (self.name@, texts_of(self.connections@))
    }
}

/// The lines of `text` that end at or after position `i`, where the line that holds `i`
/// began at `from`. A line ends before a line feed, or where the text ends.
pub open spec fn lines_at(text: Seq<char>, from: int, i: int) -> Seq<Seq<char>>
    decreases text.len() - i,
{
    if i >= text.len() {
        seq![text.subrange(from, i)]
    } else if text[i] == '\n' {
        seq![text.subrange(from, i)] + lines_at(text, i + 1, i + 1)
    } else {
        lines_at(text, from, i + 1)
    }
}

/// The lines of a text, from top to bottom.
pub open spec fn lines(text: Seq<char>) -> Seq<Seq<char>> {
    lines_at(text, 0, 0)
}

/// The world that the first `n` of the lines describe, and the table of its names: the
/// colonies are entered line by line into an empty graph, their names into an empty
/// table.
pub open spec fn world_of(lines: Seq<Seq<char>>, n: int) -> (GraphModel, Seq<Seq<char>>)
    decreases n,
{
    if n <= 0 {
        (Map::empty(), Seq::empty())
    } else {
        let (graph, table) = world_of(lines, n - 1);
        match line_entry(lines[n - 1]) {
            Some((name, connections)) => {
                let grown = loaded_table(table, name, connections);
                (loaded_graph(graph, grown, name, connections), grown)
            },
            None => (graph, table),
        }
    }
}

/// The characters of a text.
pub fn chars_of(text: &str) -> (chars: Vec<char>)
    ensures
        chars@ == text@,
{
    broadcast use vstd::string::group_string_axioms;

    let mut chars: Vec<char> = Vec::new();
    let ghost all = vstd::string::spec_iter(text).remaining();
    for c in walk: text.chars()
        invariant
            walk.seq() == all,
            all == text@,
            chars@.len() == walk.index(),
            chars@ == all.take(walk.index()),
    {
        chars.push(c);
    }
    assert(all.take(all.len() as int) == all);
    chars
}

/// The characters from position `from` up to position `to`, as a text.
pub fn text_between(chars: &Vec<char>, from: usize, to: usize) -> (text: String)
    requires
        from <= to <= chars@.len(),
    ensures
        text@ == chars@.subrange(from as int, to as int),
{
    let mut text = String::new();
    let mut i: usize = from;
    while i < to
        invariant
            from <= i <= to <= chars@.len(),
            text@ == chars@.subrange(from as int, i as int),
        decreases to - i,
    {
        text.push(chars[i]);
        assert(chars@.subrange(from as int, i + 1) == chars@.subrange(from as int, i as int).push(
            chars@[i as int],
        ));
        i = i + 1;
    }
    text
}

/// A stretch of a line: where it begins, and where it ends.
#[derive(Clone, Copy, Debug, PartialEq, Eq, Structural)]
pub struct Stretch {
    pub from: usize,
    pub to: usize,
}

/// The characters of the first `n` stretches.
pub open spec fn stretched(line: Seq<char>, stretches: Seq<Stretch>, n: int) -> Seq<Seq<char>>
    decreases n,
{
    if n <= 0 {
        Seq::empty()
    } else {
        stretched(line, stretches, n - 1).push(
            line.subrange(stretches[n - 1].from as int, stretches[n - 1].to as int),
        )
    }
}

/// What the stretches hold: as many words as there are stretches, each the characters of
/// its stretch.
pub proof fn lemma_stretched(line: Seq<char>, stretches: Seq<Stretch>, n: int)
    requires
        0 <= n <= stretches.len(),
    ensures
        stretched(line, stretches, n).len() == n,
        forall|k: int|
            0 <= k < n ==> #[trigger] stretched(line, stretches, n)[k] == line.subrange(
                stretches[k].from as int,
                stretches[k].to as int,
            ),
    decreases n,
{
    if n > 0 {
        lemma_stretched(line, stretches, n - 1);
    }
}

/// Where the words of a line stand, from left to right.
pub fn find_words(line: &Vec<char>) -> (found: Vec<Stretch>)
    ensures
        stretched(line@, found@, found@.len() as int) == words(line@),
        found@.len() <= line@.len(),
        forall|k: int|
            0 <= k < found@.len() ==> (#[trigger] found@[k]).from < found@[k].to <= line@.len(),
{
    let mut found: Vec<Stretch> = Vec::new();
    let mut from: usize = 0;
    let mut i: usize = 0;
    while i < line.len()
        invariant
            from <= i <= line@.len(),
            found@.len() <= from,
            forall|k: int|
                0 <= k < found@.len() ==> (#[trigger] found@[k]).from < found@[k].to
                    <= line@.len(),
            words(line@) == stretched(line@, found@, found@.len() as int) + words_at(
                line@,
                from as int,
                i as int,
            ),
        decreases line@.len() - i,
    {
        let ghost before = found@;
        let ghost done = stretched(line@, before, before.len() as int);
        if line[i].is_whitespace() {
            if from < i {
                found.push(Stretch { from, to: i });
                proof {
                    lemma_stretches_kept(line@, before, found@, before.len() as int);
                    assert(stretched(line@, found@, found@.len() as int) == done.push(
                        line@.subrange(from as int, i as int),
                    ));
                    assert(done + (seq![line@.subrange(from as int, i as int)] + words_at(
                        line@,
                        i + 1,
                        i + 1,
                    )) == done.push(line@.subrange(from as int, i as int)) + words_at(
                        line@,
                        i + 1,
                        i + 1,
                    ));
                }
            }
            from = i + 1;
        }
        i = i + 1;
    }
    let ghost before = found@;
    let ghost done = stretched(line@, before, before.len() as int);
    if from < i {
        found.push(Stretch { from, to: i });
        proof {
            lemma_stretches_kept(line@, before, found@, before.len() as int);
            assert(stretched(line@, found@, found@.len() as int) == done.push(
                line@.subrange(from as int, i as int),
            ));
            assert(done + seq![line@.subrange(from as int, i as int)] == done.push(
                line@.subrange(from as int, i as int),
            ));
        }
    } else {
        assert(done + Seq::<Seq<char>>::empty() == done);
    }
    found
}

/// The words of the first `n` stretches do not depend on the stretches that follow.
pub proof fn lemma_stretches_kept(
    line: Seq<char>,
    shorter: Seq<Stretch>,
    longer: Seq<Stretch>,
    n: int,
)
    requires
        0 <= n <= shorter.len() <= longer.len(),
        forall|k: int| 0 <= k < shorter.len() ==> shorter[k] == longer[k],
    ensures
        stretched(line, longer, n) == stretched(line, shorter, n),
    decreases n,
{
    if n > 0 {
        lemma_stretches_kept(line, shorter, longer, n - 1);
    }
}

/// The position of the first equals sign in a stretch of the line, if it holds one.
pub fn find_equals(line: &Vec<char>, stretch: Stretch) -> (found: Option<usize>)
    requires
        stretch.from <= stretch.to <= line@.len(),
    ensures
        match found {
            Some(position) => stretch.from <= position < stretch.to && splits_at(
                line@.subrange(stretch.from as int, stretch.to as int),
                position - stretch.from,
            ),
            None => connection_of(line@.subrange(stretch.from as int, stretch.to as int))
                is None,
        },
{
    let ghost word = line@.subrange(stretch.from as int, stretch.to as int);
    let mut i: usize = stretch.from;
    while i < stretch.to
        invariant
            stretch.from <= i <= stretch.to <= line@.len(),
            word == line@.subrange(stretch.from as int, stretch.to as int),
            forall|k: int| 0 <= k < i - stretch.from ==> word[k] != '=',
        decreases stretch.to - i,
    {
        if line[i] == '=' {
            assert(word[i - stretch.from] == line@[i as int]);
            return Some(i);
        }
        assert(word[i - stretch.from] == line@[i as int]);
        i = i + 1;
    }
    assert(forall|k: int| !splits_at(word, k));
    None
}

/// Reads one line of the description of a world. Its first word is the name of a
/// colony; each other word that holds an equals sign describes a tunnel, and the words
/// that hold none are passed over. A line without words describes nothing.
pub fn parse_line(line: &str) -> (read: Option<ColonyLine>)
    ensures
        match read {
            Some(colony) => line_entry(line@) == Some(colony@) && colony.connections@.len()
                < line@.len(),
            None => line_entry(line@) is None,
        },
{
    let chars = chars_of(line);
    let found = find_words(&chars);
    let ghost all = words(line@);
    proof {
        lemma_stretched(chars@, found@, found@.len() as int);
    }
    if found.len() == 0 {
        return None;
    }
    let name = text_between(&chars, found[0].from, found[0].to);
    let ghost rest = all.skip(1);
    let mut connections: Vec<Connection> = Vec::new();
    let mut n: usize = 1;
    while n < found.len()
        invariant
            1 <= n <= found@.len(),
            all.len() == found@.len(),
            rest == all.skip(1),
            forall|k: int|
                0 <= k < found@.len() ==> (#[trigger] found@[k]).from < found@[k].to
                    <= chars@.len(),
            forall|k: int|
                0 <= k < found@.len() ==> #[trigger] all[k] == chars@.subrange(
                    found@[k].from as int,
                    found@[k].to as int,
                ),
            connections@.len() < n,
            texts_of(connections@) == connections_among(rest, n - 1),
        decreases found@.len() - n,
    {
        let stretch = found[n];
        let ghost word = chars@.subrange(stretch.from as int, stretch.to as int);
        assert(all[n as int] == word);
        assert(rest[n - 1] == word);
        match find_equals(&chars, stretch) {
            Some(position) => {
                let direction = text_between(&chars, stretch.from, position);
                let destination = text_between(&chars, position + 1, stretch.to);
                proof {
                    let i = position - stretch.from;
                    let chosen = choose|i: int| splits_at(word, i);
                    assert(splits_at(word, chosen));
                    assert(chosen == i) by {
                        if chosen < i {
                            assert(word[chosen] != '=');
                        } else if i < chosen {
                            assert(word[i] != '=');
                        }
                    }
                    assert(direction@ == word.take(i));
                    assert(destination@ == word.skip(i + 1));
                }
                let ghost listed = connections@;
                connections.push(Connection { direction, destination });
                assert(texts_of(connections@) =~= texts_of(listed).push(
                    (direction@, destination@),
                ));
            },
            None => {},
        }
        n = n + 1;
    }
    assert(texts_of(connections@) == connections_among(rest, all.len() - 1));
    Some(ColonyLine { name, connections })
}

/// The world that a text describes does not depend on the lines behind those entered.
pub proof fn lemma_world_of_prefix(shorter: Seq<Seq<char>>, longer: Seq<Seq<char>>, n: int)
    requires
        0 <= n <= shorter.len() <= longer.len(),
        forall|k: int| 0 <= k < shorter.len() ==> shorter[k] == longer[k],
    ensures
        world_of(longer, n) == world_of(shorter, n),
    decreases n,
{
    if n > 0 {
        lemma_world_of_prefix(shorter, longer, n - 1);
    }
}

/// Builds the world that a text describes, line by line: each line with words names a
/// colony, which is entered with its tunnels. The names are interned into a new table as
/// they are read. The text must be short enough for its names to find room in the table.
pub fn build_map(content: &str) -> (world: (WorldGraph, SymbolTable))
    requires
        2 * content@.len() + 4 <= MAX_SYMBOLS,
    ensures
        world.0@ == world_of(lines(content@), lines(content@).len() as int).0,
        world.1@ == world_of(lines(content@), lines(content@).len() as int).1,
        world.1.wf(),
        room_for_directions(world.1@),
        directions_known(world.0@, world.1@),
{
    let chars = chars_of(content);
    let ghost text = content@;
    let mut graph = WorldGraph::new();
    let mut symbols = SymbolTable::new();
    let ghost mut entered: Seq<Seq<char>> = Seq::empty();
    let mut from: usize = 0;
    let mut i: usize = 0;
    while i < chars.len()
        invariant
            chars@ == text,
            from <= i <= text.len(),
            2 * text.len() + 4 <= MAX_SYMBOLS,
            lines(text) == entered + lines_at(text, from as int, i as int),
            graph@ == world_of(entered, entered.len() as int).0,
            symbols@ == world_of(entered, entered.len() as int).1,
            symbols.wf(),
            symbols@.len() <= 2 * from,
            directions_known(graph@, symbols@),
        decreases text.len() - i,
    {
        if chars[i] == '\n' {
            let line = text_between(&chars, from, i);
            proof {
                let before = entered;
                entered = entered.push(line@);
                lemma_world_of_prefix(before, entered, before.len() as int);
                assert(before + (seq![line@] + lines_at(text, i + 1, i + 1)) == entered
                    + lines_at(text, i + 1, i + 1));
            }
            enter_line(&mut graph, &mut symbols, line.as_str());
            from = i + 1;
        }
        i = i + 1;
    }
    let line = text_between(&chars, from, i);
    proof {
        let before = entered;
        entered = entered.push(line@);
        lemma_world_of_prefix(before, entered, before.len() as int);
        assert(before + seq![line@] == entered);
    }
    enter_line(&mut graph, &mut symbols, line.as_str());
    proof {
        assert(missing_directions(symbols@) <= 4);
    }
    (graph, symbols)
}

/// Enters what one line describes: nothing for a line without words, else its colony.
pub fn enter_line(graph: &mut WorldGraph, symbols: &mut SymbolTable, line: &str)
    requires
        old(symbols).wf(),
        old(symbols)@.len() + 2 * line@.len() <= MAX_SYMBOLS,
    ensures
        final(symbols).wf(),
        final(symbols)@.len() <= old(symbols)@.len() + 2 * line@.len(),
        match line_entry(line@) {
            Some((name, connections)) => final(symbols)@ == loaded_table(
                old(symbols)@,
                name,
                connections,
            ) && final(graph)@ == loaded_graph(old(graph)@, final(symbols)@, name, connections),
            None => final(symbols)@ == old(symbols)@ && final(graph)@ == old(graph)@,
        },
        directions_known(old(graph)@, old(symbols)@) ==> directions_known(
            final(graph)@,
            final(symbols)@,
        ),
{
    match parse_line(line) {
        Some(colony) => {
            load_colony(graph, symbols, colony.name.as_str(), &colony.connections);
        },
        None => {},
    }
}


} // verus!
