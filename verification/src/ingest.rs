//! Building the graph: the gates of the star map, and the lists of
//! wormholes and jump bridges that the user supplies.

use crate::error::{ErrorView, RouteError};
use crate::jumps::{
    exits_known, has_jump, jump_view_wf, lemma_with_jump_adds, lemma_with_jump_known,
    lemma_with_jump_wf, links_reciprocal, sources_known, with_jump, Jump, JumpMap, JumpView,
};
use crate::names::{find_system_by_name, resolve_system};
use crate::text::{
    chars_of, copy_range, find_chars, find_from, lemma_split_on_nonempty, matches_at, split_chars,
    split_on, split_words, text_of, texts_of, trim, trim_range, words_of,
};
use crate::universe::{gates_known_in, has_system, System, SystemId, Universe};
use vstd::prelude::*;

verus! {

/// The word that stands between the two systems in the name of a bookmark
/// for a wormhole.
pub open spec fn arrow_word() -> Seq<char> {
    "-&gt;"@
}

/// The mark that stands between the two systems of a jump bridge.
pub open spec fn bridge_mark() -> Seq<char> {
    "-->"@
}

/// The first position at or after `from` at which `word` stands among
/// `words`, or their number if it stands nowhere.
pub open spec fn word_index(words: Seq<Seq<char>>, word: Seq<char>, from: int) -> int
    decreases words.len() - from,
{
    if from < 0 || from >= words.len() {
        words.len() as int
    } else if words[from] == word {
        from
    } else {
        word_index(words, word, from + 1)
    }
}

/// The two system names of a bookmark line, if the line has the shape of
/// one: at least four columns separated by tabs, and in the first column at
/// least two words. The first name is the second word. If the arrow word
/// occurs among the words, the second name is the word after its first
/// occurrence, which must exist; otherwise it is the fourth column.
pub open spec fn wormhole_names(line: Seq<char>) -> Option<(Seq<char>, Seq<char>)> {
    let columns = split_on(line, '\t');
    let words = words_of(columns[0]);
    let arrow = word_index(words, arrow_word(), 0);
    if columns.len() < 4 || words.len() < 2 {
        None
    } else if arrow >= words.len() {
        Some((words[1], columns[3]))
    } else if arrow + 1 < words.len() {
        Some((words[1], words[arrow + 1]))
    } else {
        None
    }
}

/// Whether the character is one of the digits `0` to `9`.
pub open spec fn is_digit(c: char) -> bool {
    48 <= c as int <= 57
}

/// `text` without the digits at its start.
pub open spec fn skip_digits(text: Seq<char>) -> Seq<char>
    decreases text.len(),
{
    if text.len() > 0 && is_digit(text[0]) {
        skip_digits(text.drop_first())
    } else {
        text
    }
}

/// The two system names of a jump-bridge line, if the line has the shape
/// of one: after the digits at its start, the bridge mark occurs; the names
/// are what stands before and after its first occurrence, without the white
/// space around them.
pub open spec fn bridge_names(line: Seq<char>) -> Option<(Seq<char>, Seq<char>)> {
    let body = skip_digits(line);
    let at = find_from(bridge_mark(), body, 0);
    if at < body.len() {
        Some((trim(body.take(at)), trim(body.skip(at + bridge_mark().len()))))
    } else {
        None
    }
}

/// What a line comes to once its names are resolved: a line without names
/// is a parse failure that carries the line; otherwise the first name is
/// resolved, then the second, and the first that does not resolve decides
/// the error.
pub open spec fn resolve_pair(
    universe: &Universe,
    names: Option<(Seq<char>, Seq<char>)>,
    line: Seq<char>,
) -> Result<(SystemId, SystemId), ErrorView> {
    match names {
        None => Err(ErrorView::ParseFailure { line }),
        Some((a, b)) => match resolve_system(universe, a) {
            Err(e) => Err(e),
            Ok(x) => match resolve_system(universe, b) {
                Err(e) => Err(e),
                Ok(y) => Ok((x, y)),
            },
        },
    }
}

/// What a bookmark line comes to.
pub open spec fn wormhole_line(universe: &Universe, line: Seq<char>) -> Result<
    (SystemId, SystemId),
    ErrorView,
> {
    resolve_pair(universe, wormhole_names(line), line)
}

/// What a jump-bridge line comes to.
pub open spec fn bridge_line(universe: &Universe, line: Seq<char>) -> Result<
    (SystemId, SystemId),
    ErrorView,
> {
    resolve_pair(universe, bridge_names(line), line)
}

/// The mathematical content of the outcome of parsing a line.
pub open spec fn pair_view(outcome: Result<(SystemId, SystemId), RouteError>) -> Result<
    (SystemId, SystemId),
    ErrorView,
> {
    match outcome {
        Ok(pair) => Ok(pair),
        Err(e) => Err(e@),
    }
}

/// Whether two vectors hold the same characters.
pub fn same_chars(a: &Vec<char>, b: &Vec<char>) -> (same: bool)
    ensures
        same == (a@ == b@),
{
    if a.len() != b.len() {
        return false;
    }
    let same = matches_at(a, b, 0);
    proof {
        assert(b@.subrange(0, b@.len() as int) =~= b@);
    }
    same
}

/// Resolves the two names of a line.
fn resolve_names_of_line(
    universe: &Universe,
    a: &Vec<char>,
    b: &Vec<char>,
    Ghost(line): Ghost<Seq<char>>,
) -> (outcome: Result<(SystemId, SystemId), RouteError>)
    requires
        universe.wf(),
    ensures
        pair_view(outcome) == resolve_pair(universe, Some((a@, b@)), line),
        outcome matches Ok(pair) ==> universe.knows(pair.0) && universe.knows(pair.1),
{
    let first = text_of(a);
    let x = match find_system_by_name(universe, first.as_str()) {
        Ok(x) => x,
        Err(e) => {
            return Err(e);
        },
    };
    let second = text_of(b);
    match find_system_by_name(universe, second.as_str()) {
        Ok(y) => Ok((x, y)),
        Err(e) => Err(e),
    }
}

/// Parses a bookmark line given by its characters.
pub fn parse_wh_chars(universe: &Universe, line: &Vec<char>) -> (outcome: Result<
    (SystemId, SystemId),
    RouteError,
>)
    requires
        universe.wf(),
    ensures
        pair_view(outcome) == wormhole_line(universe, line@),
        outcome matches Ok(pair) ==> universe.knows(pair.0) && universe.knows(pair.1),
{
    let columns = split_chars(line, '\t');
    proof {
        lemma_split_on_nonempty(line@, '\t');
        assert(texts_of(columns@)[0] == columns@[0]@);
    }
    let words = split_words(&columns[0]);
    if columns.len() < 4 || words.len() < 2 {
        return Err(RouteError::ParseFailure { line: text_of(line) });
    }
    let arrow_chars = chars_of("-&gt;");
    let mut arrow: usize = 0;
    while arrow < words.len() && !same_chars(&words[arrow], &arrow_chars)
        invariant
            arrow <= words.len(),
            arrow_chars@ == arrow_word(),
            word_index(texts_of(words@), arrow_word(), 0) == word_index(
                texts_of(words@),
                arrow_word(),
                arrow as int,
            ),
        decreases words.len() - arrow,
    {
        proof {
            assert(texts_of(words@)[arrow as int] == words@[arrow as int]@);
        }
        arrow = arrow + 1;
    }
    proof {
        assert(texts_of(words@)[1] == words@[1]@);
        assert(texts_of(columns@)[3] == columns@[3]@);
        if arrow < words.len() {
            assert(texts_of(words@)[arrow as int] == words@[arrow as int]@);
            if arrow + 1 < words.len() {
                assert(texts_of(words@)[arrow + 1] == words@[arrow + 1]@);
            }
        }
    }
    if arrow >= words.len() {
        resolve_names_of_line(universe, &words[1], &columns[3], Ghost(line@))
    } else if arrow + 1 < words.len() {
        resolve_names_of_line(universe, &words[1], &words[arrow + 1], Ghost(line@))
    } else {
        Err(RouteError::ParseFailure { line: text_of(line) })
    }
}

/// Parses a line of a list of wormhole bookmarks into the two systems that
/// the wormhole joins.
pub fn try_parse_wh_line(universe: &Universe, line: &str) -> (outcome: Result<
    (SystemId, SystemId),
    RouteError,
>)
    requires
        universe.wf(),
    ensures
        pair_view(outcome) == wormhole_line(universe, line@),
        outcome matches Ok(pair) ==> universe.knows(pair.0) && universe.knows(pair.1),
{
    let chars = chars_of(line);
    parse_wh_chars(universe, &chars)
}

/// Parses a jump-bridge line given by its characters.
pub fn parse_ansi_chars(universe: &Universe, line: &Vec<char>) -> (outcome: Result<
    (SystemId, SystemId),
    RouteError,
>)
    requires
        universe.wf(),
    ensures
        pair_view(outcome) == bridge_line(universe, line@),
        outcome matches Ok(pair) ==> universe.knows(pair.0) && universe.knows(pair.1),
{
    let mut start: usize = 0;
    proof {
        assert(line@.subrange(0, line@.len() as int) =~= line@);
    }
    while start < line.len() && '0' <= line[start] && line[start] <= '9'
        invariant
            start <= line.len(),
            skip_digits(line@) == skip_digits(line@.subrange(start as int, line@.len() as int)),
        decreases line.len() - start,
    {
        proof {
            assert(line@.subrange(start as int, line@.len() as int).drop_first() =~= line@.subrange(
                start + 1,
                line@.len() as int,
            ));
        }
        start = start + 1;
    }
    let body = copy_range(line, start, line.len());
    let mark = chars_of("-->");
    let at = find_chars(&body, &mark, 0);
    if at < body.len() {
        proof {
            assert(body@.take(at as int) =~= body@.subrange(0, at as int));
            assert(body@.skip(at + mark@.len()) =~= body@.subrange(
                at + mark@.len(),
                body@.len() as int,
            ));
        }
        let a = trim_range(&body, 0, at);
        let b = trim_range(&body, at + mark.len(), body.len());
        resolve_names_of_line(universe, &a, &b, Ghost(line@))
    } else {
        Err(RouteError::ParseFailure { line: text_of(line) })
    }
}

/// Parses a line of a list of jump bridges into the two systems that the
/// bridge joins.
pub fn try_parse_ansi_line(universe: &Universe, line: &str) -> (outcome: Result<
    (SystemId, SystemId),
    RouteError,
>)
    requires
        universe.wf(),
    ensures
        pair_view(outcome) == bridge_line(universe, line@),
        outcome matches Ok(pair) ==> universe.knows(pair.0) && universe.knows(pair.1),
{
    let chars = chars_of(line);
    parse_ansi_chars(universe, &chars)
}

/// `line` without the carriage return at its end, if it has one.
pub open spec fn without_return(line: Seq<char>) -> Seq<char> {
    if line.len() > 0 && line.last() == '\r' {
        line.drop_last()
    } else {
        line
    }
}

/// The lines of a text. A line ends at a line feed; the line feed, and a
/// carriage return just before it, are not part of the line. What follows
/// the last line feed is a line of its own unless it is empty.
pub open spec fn lines_of(content: Seq<char>) -> Seq<Seq<char>> {
    let pieces = split_on(content, '\n');
    let ended = Seq::new((pieces.len() - 1) as nat, |i: int| without_return(pieces[i]));
    if pieces.last().len() > 0 {
        ended.push(pieces.last())
    } else {
        ended
    }
}

/// Splits a text into its lines.
pub fn split_lines(content: &Vec<char>) -> (lines: Vec<Vec<char>>)
    ensures
        texts_of(lines@) == lines_of(content@),
{
    let pieces = split_chars(content, '\n');
    proof {
        lemma_split_on_nonempty(content@, '\n');
    }
    let ghost spec_pieces = split_on(content@, '\n');
    let ghost ended = Seq::new(
        (spec_pieces.len() - 1) as nat,
        |i: int| without_return(spec_pieces[i]),
    );
    let mut lines: Vec<Vec<char>> = Vec::new();
    let mut i: usize = 0;
    while i + 1 < pieces.len()
        invariant
            i + 1 <= pieces.len(),
            texts_of(pieces@) == spec_pieces,
            texts_of(lines@) == ended.take(i as int),
            ended.len() == pieces.len() - 1,
            forall|k: int| 0 <= k < ended.len() ==> ended[k] == without_return(spec_pieces[k]),
        decreases pieces.len() - i,
    {
        let piece = &pieces[i];
        proof {
            assert(texts_of(pieces@)[i as int] == piece@);
        }
        let end: usize = if piece.len() > 0 && piece[piece.len() - 1] == '\r' {
            piece.len() - 1
        } else {
            piece.len()
        };
        let line = copy_range(piece, 0, end);
        proof {
            assert(line@ =~= without_return(piece@));
        }
        let ghost before = texts_of(lines@);
        lines.push(line);
        proof {
            assert(texts_of(lines@) =~= before.push(line@));
            assert(ended.take(i + 1) =~= ended.take(i as int).push(ended[i as int]));
        }
        i = i + 1;
    }
    proof {
        assert(ended.take(i as int) =~= ended);
        assert(texts_of(pieces@)[pieces@.len() - 1] == pieces@[pieces@.len() - 1]@);
    }
    let last = &pieces[pieces.len() - 1];
    if last.len() > 0 {
        let line = copy_range(last, 0, last.len());
        proof {
            assert(line@ =~= last@);
        }
        let ghost before = texts_of(lines@);
        lines.push(line);
        proof {
            assert(texts_of(lines@) =~= before.push(line@));
        }
    }
    lines
}

/// The graph with a link between `a` and `b` added in both directions.
pub open spec fn with_link(m: JumpView, a: SystemId, b: SystemId, via: Jump) -> JumpView {
    with_jump(with_jump(m, a, (b, via)), b, (a, via))
}

/// Adding a link keeps the graph well formed and, if both ends are systems
/// of the table, inside the table.
pub proof fn lemma_with_link(m: JumpView, a: SystemId, b: SystemId, via: Jump, systems: Seq<System>)
    requires
        jump_view_wf(m),
    ensures
        jump_view_wf(with_link(m, a, b, via)),
        exits_known(m, systems) && has_system(systems, a) && has_system(systems, b) ==> exits_known(
            with_link(m, a, b, via),
            systems,
        ),
        sources_known(m, systems) && exits_known(m, systems) && has_system(systems, a)
            && has_system(systems, b) ==> sources_known(with_link(m, a, b, via), systems),
{
    let half = with_jump(m, a, (b, via));
    lemma_with_jump_wf(m, a, (b, via));
    lemma_with_jump_wf(half, b, (a, via));
    if exits_known(m, systems) && has_system(systems, a) && has_system(systems, b) {
        lemma_with_jump_known(m, a, (b, via), systems);
        lemma_with_jump_known(half, b, (a, via), systems);
    }
}

/// A link of a kind other than a gate keeps every such link of the graph
/// in both directions.
pub proof fn lemma_with_link_reciprocal(m: JumpView, a: SystemId, b: SystemId, via: Jump)
    requires
        links_reciprocal(m),
    ensures
        has_jump(with_link(m, a, b, via), a, b, via),
        has_jump(with_link(m, a, b, via), b, a, via),
        (via != Jump::Gate) ==> links_reciprocal(with_link(m, a, b, via)),
{
    let half = with_jump(m, a, (b, via));
    lemma_with_jump_adds(m, a, (b, via));
    lemma_with_jump_adds(half, b, (a, via));
    let n = with_link(m, a, b, via);
    assert(has_jump(half, a, b, via));
    assert(has_jump(n, a, b, via));
    assert(has_jump(n, b, a, via));
    if via != Jump::Gate {
        assert forall|x: SystemId, y: SystemId, kind: Jump|
            kind != Jump::Gate && #[trigger] has_jump(n, x, y, kind) implies has_jump(
            n,
            y,
            x,
            kind,
        ) by {
            if has_jump(m, x, y, kind) {
                assert(has_jump(m, y, x, kind));
                assert(has_jump(half, y, x, kind));
            } else if has_jump(half, x, y, kind) {
                assert(x == a && y == b && kind == via);
            } else {
                assert(x == b && y == a && kind == via);
            }
        }
    }
}

/// What loading some lines leaves behind: the graph, and the line at which
/// loading stopped, if it did.
pub struct Loaded {
    pub jumps: JumpView,
    pub failed: Option<Seq<char>>,
}

/// Loads bookmark lines from first to last into the graph `m`, each as a
/// wormhole link in both directions, and stops at the first line that does
/// not come to a pair of systems.
pub open spec fn loaded_wormholes(universe: &Universe, lines: Seq<Seq<char>>, m: JumpView) -> Loaded
    decreases lines.len(),
{
    if lines.len() == 0 {
        Loaded { jumps: m, failed: None }
    } else {
        match wormhole_line(universe, lines[0]) {
            Err(_) => Loaded { jumps: m, failed: Some(lines[0]) },
            Ok((a, b)) => loaded_wormholes(
                universe,
                lines.drop_first(),
                with_link(m, a, b, Jump::Wormhole),
            ),
        }
    }
}

/// A line of a list of jump bridges that says nothing: it is blank, or its
/// first character that is not white space is `#`.
pub open spec fn is_idle(line: Seq<char>) -> bool {
    trim(line).len() == 0 || trim(line)[0] == '#'
}

/// Loads jump-bridge lines from first to last into the graph `m`, each as
/// a link in both directions, passing over idle lines, and stops at the
/// first other line that, without the white space around it, does not come
/// to a pair of systems.
pub open spec fn loaded_bridges(universe: &Universe, lines: Seq<Seq<char>>, m: JumpView) -> Loaded
    decreases lines.len(),
{
    if lines.len() == 0 {
        Loaded { jumps: m, failed: None }
    } else if is_idle(lines[0]) {
        loaded_bridges(universe, lines.drop_first(), m)
    } else {
        match bridge_line(universe, trim(lines[0])) {
            Err(_) => Loaded { jumps: m, failed: Some(lines[0]) },
            Ok((a, b)) => loaded_bridges(
                universe,
                lines.drop_first(),
                with_link(m, a, b, Jump::Ansiblex),
            ),
        }
    }
}

/// The mathematical content of the outcome of loading.
pub open spec fn load_view(outcome: Result<(), RouteError>) -> Option<ErrorView> {
    match outcome {
        Ok(_) => None,
        Err(e) => Some(e@),
    }
}

/// What loading reports: nothing if every line was loaded, else a parse
/// failure that carries the line at which loading stopped.
pub open spec fn load_report(loaded: Loaded) -> Option<ErrorView> {
    match loaded.failed {
        None => None,
        Some(line) => Some(ErrorView::ParseFailure { line }),
    }
}

/// Adds a link between `a` and `b` in both directions.
fn add_link(jumps: &mut JumpMap, a: SystemId, b: SystemId, via: Jump)
    requires
        old(jumps).wf(),
    ensures
        final(jumps)@ == with_link(old(jumps)@, a, b, via),
        final(jumps).wf(),
{
    jumps.add_jump(a, b, via);
    jumps.add_jump(b, a, via);
}

/// Loads a list of wormhole bookmarks into the graph, one link in both
/// directions for each line. Loading stops at the first line that cannot
/// be parsed or names a system that cannot be resolved: the links of the
/// lines before it stay, and the error carries that line.
pub fn load_wormholes(content: &str, universe: &Universe, jumps: &mut JumpMap) -> (outcome: Result<
    (),
    RouteError,
>)
    requires
        universe.wf(),
        old(jumps).wf(),
    ensures
        final(jumps)@ == loaded_wormholes(universe, lines_of(content@), old(jumps)@).jumps,
        load_view(outcome) == load_report(
            loaded_wormholes(universe, lines_of(content@), old(jumps)@),
        ),
        final(jumps).wf(),
        old(jumps).exits_within(universe) ==> final(jumps).exits_within(universe),
        old(jumps).within(universe) ==> final(jumps).within(universe),
        links_reciprocal(old(jumps)@) ==> links_reciprocal(final(jumps)@),
{
    let chars = chars_of(content);
    let lines = split_lines(&chars);
    let ghost all = lines_of(content@);
    let ghost start = jumps@;
    let ghost systems = universe.system_table();
    let mut i: usize = 0;
    proof {
        assert(all.skip(0) =~= all);
    }
    while i < lines.len()
        invariant
            i <= lines.len(),
            universe.wf(),
            systems == universe.system_table(),
            texts_of(lines@) == all,
            all == lines_of(content@),
            start == old(jumps)@,
            jumps.wf(),
            loaded_wormholes(universe, all, start) == loaded_wormholes(
                universe,
                all.skip(i as int),
                jumps@,
            ),
            exits_known(start, systems) ==> exits_known(jumps@, systems),
            sources_known(start, systems) && exits_known(start, systems) ==> sources_known(
                jumps@,
                systems,
            ),
            links_reciprocal(start) ==> links_reciprocal(jumps@),
        decreases lines.len() - i,
    {
        proof {
            assert(all.skip(i as int)[0] == lines@[i as int]@);
            assert(all.skip(i as int).drop_first() =~= all.skip(i + 1));
        }
        match parse_wh_chars(universe, &lines[i]) {
            Ok((a, b)) => {
                proof {
                    lemma_with_link(jumps@, a, b, Jump::Wormhole, systems);
                    if links_reciprocal(jumps@) {
                        lemma_with_link_reciprocal(jumps@, a, b, Jump::Wormhole);
                    }
                }
                add_link(jumps, a, b, Jump::Wormhole);
            },
            Err(_) => {
                proof {
                    assert(wormhole_line(universe, all.skip(i as int)[0]) is Err);
                }
                return Err(RouteError::ParseFailure { line: text_of(&lines[i]) });
            },
        }
        i = i + 1;
    }
    Ok(())
}

/// Loads a list of jump bridges into the graph, one link in both
/// directions for each line that is not idle. Loading stops at the first
/// line that cannot be parsed or names a system that cannot be resolved:
/// the links of the lines before it stay, and the error carries that line.
pub fn load_ansiblexes(content: &str, universe: &Universe, jumps: &mut JumpMap) -> (outcome: Result<
    (),
    RouteError,
>)
    requires
        universe.wf(),
        old(jumps).wf(),
    ensures
        final(jumps)@ == loaded_bridges(universe, lines_of(content@), old(jumps)@).jumps,
        load_view(outcome) == load_report(
            loaded_bridges(universe, lines_of(content@), old(jumps)@),
        ),
        final(jumps).wf(),
        old(jumps).exits_within(universe) ==> final(jumps).exits_within(universe),
        old(jumps).within(universe) ==> final(jumps).within(universe),
        links_reciprocal(old(jumps)@) ==> links_reciprocal(final(jumps)@),
{
    let chars = chars_of(content);
    let lines = split_lines(&chars);
    let ghost all = lines_of(content@);
    let ghost start = jumps@;
    let ghost systems = universe.system_table();
    let mut i: usize = 0;
    proof {
        assert(all.skip(0) =~= all);
    }
    while i < lines.len()
        invariant
            i <= lines.len(),
            universe.wf(),
            systems == universe.system_table(),
            texts_of(lines@) == all,
            all == lines_of(content@),
            start == old(jumps)@,
            jumps.wf(),
            loaded_bridges(universe, all, start) == loaded_bridges(
                universe,
                all.skip(i as int),
                jumps@,
            ),
            exits_known(start, systems) ==> exits_known(jumps@, systems),
            sources_known(start, systems) && exits_known(start, systems) ==> sources_known(
                jumps@,
                systems,
            ),
            links_reciprocal(start) ==> links_reciprocal(jumps@),
        decreases lines.len() - i,
    {
        proof {
            assert(all.skip(i as int)[0] == lines@[i as int]@);
            assert(all.skip(i as int).drop_first() =~= all.skip(i + 1));
            let whole = lines@[i as int]@;
            assert(whole.subrange(0, whole.len() as int) =~= whole);
        }
        let line = trim_range(&lines[i], 0, lines[i].len());
        if line.len() > 0 && line[0] != '#' {
            match parse_ansi_chars(universe, &line) {
                Ok((a, b)) => {
                    proof {
                        lemma_with_link(jumps@, a, b, Jump::Ansiblex, systems);
                        if links_reciprocal(jumps@) {
                            lemma_with_link_reciprocal(jumps@, a, b, Jump::Ansiblex);
                        }
                    }
                    add_link(jumps, a, b, Jump::Ansiblex);
                },
                Err(_) => {
                    proof {
                        assert(!is_idle(all.skip(i as int)[0]));
                        assert(bridge_line(universe, trim(all.skip(i as int)[0])) is Err);
                    }
                    return Err(RouteError::ParseFailure { line: text_of(&lines[i]) });
                },
            }
        }
        i = i + 1;
    }
    Ok(())
}

/// The graph with a gate from `from` to each of `targets` added, in order.
pub open spec fn with_gates_of(m: JumpView, from: SystemId, targets: Seq<SystemId>) -> JumpView
    decreases targets.len(),
{
    if targets.len() == 0 {
        m
    } else {
        with_jump(with_gates_of(m, from, targets.drop_last()), from, (targets.last(), Jump::Gate))
    }
}

/// The graph with the gates of all the given systems added, system by
/// system in order.
pub open spec fn with_stargates(m: JumpView, systems: Seq<System>) -> JumpView
    decreases systems.len(),
{
    if systems.len() == 0 {
        m
    } else {
        with_gates_of(
            with_stargates(m, systems.drop_last()),
            systems.last().id,
            systems.last().jumps@,
        )
    }
}

/// Adds the gates of every system of the table to the graph.
pub fn load_stargates(universe: &Universe, jumps: &mut JumpMap)
    requires
        universe.wf(),
        old(jumps).wf(),
    ensures
        final(jumps)@ == with_stargates(old(jumps)@, universe.system_table()),
        final(jumps).wf(),
        old(jumps).exits_within(universe) ==> final(jumps).exits_within(universe),
        old(jumps).within(universe) ==> final(jumps).within(universe),
        links_reciprocal(old(jumps)@) ==> links_reciprocal(final(jumps)@),
{
    let table = universe.systems();
    let ghost systems = universe.system_table();
    let ghost start = jumps@;
    let mut i: usize = 0;
    while i < table.len()
        invariant
            i <= table.len(),
            universe.wf(),
            table@ == systems,
            systems == universe.system_table(),
            jumps.wf(),
            jumps@ == with_stargates(start, systems.take(i as int)),
            exits_known(start, systems) ==> exits_known(jumps@, systems),
            sources_known(start, systems) && exits_known(start, systems) ==> sources_known(
                jumps@,
                systems,
            ),
            links_reciprocal(start) ==> links_reciprocal(jumps@),
        decreases table.len() - i,
    {
        let sys = &table[i];
        let ghost before = jumps@;
        let mut k: usize = 0;
        while k < sys.jumps.len()
            invariant
                k <= sys.jumps.len(),
                i < table.len(),
                table@ == systems,
                *sys == systems[i as int],
                universe.wf(),
                systems == universe.system_table(),
                jumps.wf(),
                jumps@ == with_gates_of(before, sys.id, sys.jumps@.take(k as int)),
                exits_known(start, systems) ==> exits_known(jumps@, systems),
                sources_known(start, systems) && exits_known(start, systems) ==> sources_known(
                    jumps@,
                    systems,
                ),
                links_reciprocal(start) ==> links_reciprocal(jumps@),
            decreases sys.jumps.len() - k,
        {
            proof {
                assert(sys.jumps@.take(k + 1).drop_last() =~= sys.jumps@.take(k as int));
                assert(gates_known_in(systems, i as int, systems[i as int].jumps@.len() as int));
                assert(has_system(systems, systems[i as int].jumps@[k as int]));
                lemma_with_jump_adds(jumps@, sys.id, (sys.jumps@[k as int], Jump::Gate));
                if exits_known(start, systems) {
                    lemma_with_jump_known(
                        jumps@,
                        sys.id,
                        (sys.jumps@[k as int], Jump::Gate),
                        systems,
                    );
                }
            }
            jumps.add_jump(sys.id, sys.jumps[k], Jump::Gate);
            k = k + 1;
        }
        proof {
            assert(sys.jumps@.take(k as int) =~= sys.jumps@);
            assert(systems.take(i + 1).drop_last() =~= systems.take(i as int));
        }
        i = i + 1;
    }
    proof {
        assert(systems.take(i as int) =~= systems);
    }
}

} // verus!
