//! The roster source parser.
//!
//! A roster source declares trainers, each followed by the creatures of
//! its party, one field to a line. It is read by a machine of three
//! states that takes one line at a time.

use crate::number::{number, parse_number};
use crate::text::{
    lemma_run, lines, pieces, reads, run, run_end, split_lines, split_on, split_words, strings,
    texts, to_chars, to_text, trim, trimmed, words, Class,
};
use crate::trainer::roster::Roster;
use crate::trainer::{TrainerError, TrainerFault};
use vstd::prelude::*;
use vstd::slice::slice_subrange;

verus! {

/// One creature of a trainer's party.
#[derive(Debug, Clone, PartialEq, Eq)]
pub struct TrainerPokemon {
    /// The value of `.iv`.
    pub ivs: u8,
    /// The value of `.lvl`.
    pub level: u8,
    /// The value of `.species`, as written.
    pub species: String,
    /// The names between the braces of `.moves`, where that field is given.
    pub moves: Option<Vec<String>>,
    /// The value of `.heldItem`, as written, where that field is given.
    pub item: Option<String>,
}

/// The model of a [`TrainerPokemon`].
pub struct TrainerPokemonView {
    pub ivs: u8,
    pub level: u8,
    pub species: Seq<char>,
    pub moves: Option<Seq<Seq<char>>>,
    pub item: Option<Seq<char>>,
}

impl View for TrainerPokemon {
    type V = TrainerPokemonView;

    open spec fn view(&self) -> TrainerPokemonView {
        TrainerPokemonView {
            ivs: self.ivs,
            level: self.level,
            species: self.species@,
            moves: match self.moves {
                Some(moves) => Some(strings(moves@)),
                None => None,
            },
            item: match self.item {
                Some(item) => Some(item@),
                None => None,
            },
        }
    }
}

/// The creature that no field has been given to yet.
pub open spec fn blank() -> TrainerPokemonView {
    TrainerPokemonView { ivs: 0, level: 0, species: Seq::empty(), moves: None, item: None }
}

impl Default for TrainerPokemon {
    fn default() -> (pokemon: TrainerPokemon)
        ensures
            pokemon@ == blank(),
    {
        TrainerPokemon { ivs: 0, level: 0, species: String::new(), moves: None, item: None }
    }
}

/// The models of a list of creatures.
pub open spec fn pokemon_views(v: Seq<TrainerPokemon>) -> Seq<TrainerPokemonView> {
    Seq::new(v.len(), |i: int| v[i]@)
}

/// Where the reader stands in a roster source.
#[derive(Debug, Clone, PartialEq, Eq)]
pub enum State {
    /// Between trainers.
    File,
    /// Inside the party of `trainer`, between creatures.
    Party { trainer: String, party: Vec<TrainerPokemon> },
    /// Inside the creature `current` of the party of `trainer`.
    Pokemon { trainer: String, party: Vec<TrainerPokemon>, current: TrainerPokemon },
}

/// The model of a [`State`].
pub enum StateView {
    File,
    Party { trainer: Seq<char>, party: Seq<TrainerPokemonView> },
    Pokemon { trainer: Seq<char>, party: Seq<TrainerPokemonView>, current: TrainerPokemonView },
}

impl View for State {
    type V = StateView;

    open spec fn view(&self) -> StateView {
        match *self {
            State::File => StateView::File,
            State::Party { trainer, party } => StateView::Party {
                trainer: trainer@,
                party: pokemon_views(party@),
            },
            State::Pokemon { trainer, party, current } => StateView::Pokemon {
                trainer: trainer@,
                party: pokemon_views(party@),
                current: current@,
            },
        }
    }
}

/// A trainer's name and party, as a line that closes a party gives them.
pub type Entry = (String, Vec<TrainerPokemon>);

/// The model of an [`Entry`].
pub type EntryView = (Seq<char>, Seq<TrainerPokemonView>);

/// The model of an entry that may be there.
pub open spec fn entry_view(e: Option<Entry>) -> Option<EntryView> {
    match e {
        Some((name, party)) => Some((name@, pokemon_views(party@))),
        None => None,
    }
}

/// `w` without its last `n` characters, or without all of them where it
/// has fewer.
pub open spec fn chop(w: Seq<char>, n: int) -> Seq<char> {
    if w.len() >= n {
        w.take(w.len() - n)
    } else {
        Seq::empty()
    }
}

/// The trainer that a line outside any party declares: its fifth word
/// without the last two characters. Words are parted by ASCII white
/// space.
pub open spec fn declared(line: Seq<char>) -> Option<Seq<char>> {
    let ws = words(trim(line), Class::AsciiSpace);
    if ws.len() > 4 {
        Some(chop(ws[4], 2))
    } else {
        None
    }
}

/// The moves that a value lists: what stands between its first `{` and
/// its first `}`, cut at commas, each piece trimmed. `None` where a brace
/// is missing or the closing one comes first.
pub open spec fn moves_of(value: Seq<char>) -> Option<Seq<Seq<char>>> {
    let open = run(value, Class::Only('{'), false);
    let close = run(value, Class::Only('}'), false);
    if open >= value.len() || close >= value.len() || close < open {
        None
    } else {
        Some(pieces(value.subrange(open + 1, close), ',').map_values(|m: Seq<char>| trim(m)))
    }
}

/// The creature `p` after the field line `text`.
///
/// The line is cut at its first `=` into a field and what is given for
/// it, both trimmed. What is given loses its last character, the
/// terminator, and the rest is the value.
pub open spec fn assign(p: TrainerPokemonView, line: usize, text: Seq<char>) -> Result<
    TrainerPokemonView,
    TrainerFault,
> {
    let eq = run(text, Class::Only('='), false);
    let field = trim(text.take(eq));
    let given = trim(text.skip(eq + 1));
    let value = given.drop_last();
    if eq >= text.len() || given.len() == 0 {
        Err(TrainerFault::FieldParse(line, text))
    } else if field == ".iv"@ {
        match number(value, 10, 255) {
            Ok(v) => Ok(
                TrainerPokemonView {
                    ivs: v as u8,
                    level: p.level,
                    species: p.species,
                    moves: p.moves,
                    item: p.item,
                },
            ),
            Err(e) => Err(TrainerFault::NumParse(line, "ivs"@, e)),
        }
    } else if field == ".lvl"@ {
        match number(value, 10, 255) {
            Ok(v) => Ok(
                TrainerPokemonView {
                    ivs: p.ivs,
                    level: v as u8,
                    species: p.species,
                    moves: p.moves,
                    item: p.item,
                },
            ),
            Err(e) => Err(TrainerFault::NumParse(line, "level"@, e)),
        }
    } else if field == ".species"@ {
        Ok(
            TrainerPokemonView {
                ivs: p.ivs,
                level: p.level,
                species: value,
                moves: p.moves,
                item: p.item,
            },
        )
    } else if field == ".moves"@ {
        match moves_of(value) {
            Some(moves) => Ok(
                TrainerPokemonView {
                    ivs: p.ivs,
                    level: p.level,
                    species: p.species,
                    moves: Some(moves),
                    item: p.item,
                },
            ),
            None => Err(TrainerFault::BracketParse(line, "moves"@)),
        }
    } else if field == ".heldItem"@ {
        Ok(
            TrainerPokemonView {
                ivs: p.ivs,
                level: p.level,
                species: p.species,
                moves: p.moves,
                item: Some(value),
            },
        )
    } else {
        Err(TrainerFault::UnknownField(line, field))
    }
}

/// What one line does to the reader: the state after it, and the entry
/// that it completes, if any.
///
/// - `File`: a blank line changes nothing. A line that declares a trainer
///   opens its party; any other line changes nothing.
/// - `Party`: `};` closes the party and gives the entry. Any other line
///   opens a creature and is not read further.
/// - `Pokemon`: `},` or `}` closes the creature and adds it to the party.
///   Any other line must be a field of the creature.
pub open spec fn advance(st: StateView, line: usize, text: Seq<char>) -> Result<
    (StateView, Option<EntryView>),
    TrainerFault,
> {
    match st {
        StateView::File => {
            if trim(text).len() == 0 {
                Ok((StateView::File, None))
            } else {
                match declared(text) {
                    Some(trainer) => Ok(
                        (StateView::Party { trainer, party: Seq::empty() }, None),
                    ),
                    None => Ok((StateView::File, None)),
                }
            }
        },
        StateView::Party { trainer, party } => {
            if trim(text) == "};"@ {
                Ok((StateView::File, Some((trainer, party))))
            } else {
                Ok((StateView::Pokemon { trainer, party, current: blank() }, None))
            }
        },
        StateView::Pokemon { trainer, party, current } => {
            if trim(text) == "},"@ || trim(text) == "}"@ {
                Ok((StateView::Party { trainer, party: party.push(current) }, None))
            } else {
                match assign(current, line, text) {
                    Ok(next) => Ok((StateView::Pokemon { trainer, party, current: next }, None)),
                    Err(e) => Err(e),
                }
            }
        },
    }
}

/// The roster after the lines from `at` on, when the reader stands in
/// `st` before line `at` and `found` holds the entries completed so far.
/// A later entry of a name replaces the earlier one. What is unfinished
/// when the lines end is left out.
pub open spec fn gather(
    ls: Seq<Seq<char>>,
    at: int,
    st: StateView,
    found: Map<Seq<char>, Seq<TrainerPokemonView>>,
) -> Result<Map<Seq<char>, Seq<TrainerPokemonView>>, TrainerFault>
    decreases ls.len() - at,
{
    if at < 0 || at >= ls.len() {
        Ok(found)
    } else {
        match advance(st, at as usize, ls[at]) {
            Err(e) => Err(e),
            Ok((next, entry)) => gather(
                ls,
                at + 1,
                next,
                match entry {
                    Some((name, party)) => found.insert(name, party),
                    None => found,
                },
            ),
        }
    }
}

/// The roster of a source text, or the first error in it.
pub open spec fn roster_of(text: Seq<char>) -> Result<
    Map<Seq<char>, Seq<TrainerPokemonView>>,
    TrainerFault,
> {
    gather(lines(text), 0, StateView::File, Map::empty())
}

/// Whether a creature read by the executable code is the one the model
/// gives.
pub open spec fn field_agrees(
    got: Result<TrainerPokemon, TrainerError>,
    want: Result<TrainerPokemonView, TrainerFault>,
) -> bool {
    match (got, want) {
        (Ok(p), Ok(v)) => p@ == v,
        (Err(e), Err(f)) => e@ == f,
        _ => false,
    }
}

/// Whether a step of the executable code is the one the model gives.
pub open spec fn step_agrees(
    got: Result<(State, Option<Entry>), TrainerError>,
    want: Result<(StateView, Option<EntryView>), TrainerFault>,
) -> bool {
    match (got, want) {
        (Ok((st, entry)), Ok((sv, ev))) => st@ == sv && entry_view(entry) == ev,
        (Err(e), Err(f)) => e@ == f,
        _ => false,
    }
}

/// Whether the outcome of a parse is the one the model gives.
pub open spec fn agrees(
    got: Result<Roster, TrainerError>,
    want: Result<Map<Seq<char>, Seq<TrainerPokemonView>>, TrainerFault>,
) -> bool {
    match (got, want) {
        (Ok(roster), Ok(parties)) => roster@ == parties,
        (Err(e), Err(f)) => e@ == f,
        _ => false,
    }
}

/// Executable form of [`moves_of`].
pub fn read_moves(value: &[char]) -> (r: Option<Vec<String>>)
    ensures
        match r {
            Some(moves) => moves_of(value@) == Some(strings(moves@)),
            None => moves_of(value@) is None,
        },
{
    proof {
        assert(value@.skip(0) == value@);
    }
    let open = run_end(value, 0, &Class::Only('{'), false);
    if open >= value.len() {
        return None;
    }
    let close = run_end(value, 0, &Class::Only('}'), false);
    if close >= value.len() || close < open {
        return None;
    }
    proof {
        lemma_run(value@, Class::Only('{'), false);
        lemma_run(value@, Class::Only('}'), false);
    }
    let parts = split_on(slice_subrange(value, open + 1, close), ',');
    let ghost want = pieces(value@.subrange(open + 1, close as int), ',').map_values(
        |m: Seq<char>| trim(m),
    );
    let mut moves: Vec<String> = Vec::new();
    let mut i: usize = 0;
    while i < parts.len()
        invariant
            i <= parts.len(),
            texts(parts@) == pieces(value@.subrange(open + 1, close as int), ','),
            want == pieces(value@.subrange(open + 1, close as int), ',').map_values(
                |m: Seq<char>| trim(m),
            ),
            strings(moves@) == want.take(i as int),
        decreases parts.len() - i,
    {
        let name = to_text(trimmed(parts[i]));
        proof {
            let cut = pieces(value@.subrange(open + 1, close as int), ',');
            assert(texts(parts@)[i as int] == parts@[i as int]@);
            assert(want[i as int] == trim(cut[i as int]));
            assert(want.take(i + 1) == want.take(i as int).push(want[i as int]));
            assert(strings(moves@.push(name)) =~= strings(moves@).push(name@));
        }
        moves.push(name);
        i += 1;
    }
    proof {
        assert(want.take(parts.len() as int) == want);
    }
    Some(moves)
}

/// Executable form of [`assign`].
pub fn read_field(p: TrainerPokemon, line: usize, text: &[char]) -> (r: Result<
    TrainerPokemon,
    TrainerError,
>)
    ensures
        field_agrees(r, assign(p@, line, text@)),
{
    proof {
        assert(text@.skip(0) == text@);
    }
    let eq = run_end(text, 0, &Class::Only('='), false);
    if eq >= text.len() {
        return Err(TrainerError::FieldParse(line, to_text(text)));
    }
    let field = trimmed(slice_subrange(text, 0, eq));
    let given = trimmed(slice_subrange(text, eq + 1, text.len()));
    if given.len() == 0 {
        return Err(TrainerError::FieldParse(line, to_text(text)));
    }
    let value = slice_subrange(given, 0, given.len() - 1);
    let mut p = p;
    if reads(field, ".iv") {
        match parse_number(value, 10, 255) {
            Ok(v) => {
                p.ivs = v as u8;
                Ok(p)
            },
            Err(e) => Err(TrainerError::NumParse(line, "ivs", e)),
        }
    } else if reads(field, ".lvl") {
        match parse_number(value, 10, 255) {
            Ok(v) => {
                p.level = v as u8;
                Ok(p)
            },
            Err(e) => Err(TrainerError::NumParse(line, "level", e)),
        }
    } else if reads(field, ".species") {
        p.species = to_text(value);
        Ok(p)
    } else if reads(field, ".moves") {
        match read_moves(value) {
            Some(moves) => {
                p.moves = Some(moves);
                Ok(p)
            },
            None => Err(TrainerError::BracketParse(line, "moves")),
        }
    } else if reads(field, ".heldItem") {
        p.item = Some(to_text(value));
        Ok(p)
    } else {
        Err(TrainerError::UnknownField(line, to_text(field)))
    }
}

/// Takes one line: the state after it and the entry that it completes,
/// if any, or the error in it.
pub fn step(state: State, line: usize, text: &[char]) -> (r: Result<
    (State, Option<Entry>),
    TrainerError,
>)
    ensures
        step_agrees(r, advance(state@, line, text@)),
{
    let t = trimmed(text);
    match state {
        State::File => {
            if t.len() == 0 {
                return Ok((State::File, None));
            }
            let ws = split_words(t, &Class::AsciiSpace);
            if ws.len() > 4 {
                let w = ws[4];
                proof {
                    assert(texts(ws@)[4] == w@);
                }
                let n = if w.len() >= 2 {
                    w.len() - 2
                } else {
                    0
                };
                let party: Vec<TrainerPokemon> = Vec::new();
                proof {
                    assert(pokemon_views(party@) =~= Seq::empty());
                    assert(w@.subrange(0, n as int) =~= chop(w@, 2));
                }
                Ok((State::Party { trainer: to_text(slice_subrange(w, 0, n)), party }, None))
            } else {
                Ok((State::File, None))
            }
        },
        State::Party { trainer, party } => {
            if reads(t, "};") {
                Ok((State::File, Some((trainer, party))))
            } else {
                Ok((State::Pokemon { trainer, party, current: TrainerPokemon::default() }, None))
            }
        },
        State::Pokemon { trainer, party, current } => {
            if reads(t, "},") || reads(t, "}") {
                let mut party = party;
                proof {
                    assert(pokemon_views(party@.push(current)) =~= pokemon_views(party@).push(
                        current@,
                    ));
                }
                party.push(current);
                Ok((State::Party { trainer, party }, None))
            } else {
                match read_field(current, line, text) {
                    Ok(next) => Ok((State::Pokemon { trainer, party, current: next }, None)),
                    Err(e) => Err(e),
                }
            }
        },
    }
}

/// Parses the lines of a roster source.
pub fn parse_lines(lines: &Vec<&[char]>) -> (result: Result<Roster, TrainerError>)
    ensures
        agrees(result, gather(texts(lines@), 0, StateView::File, Map::empty())),
{
    let ghost ls = texts(lines@);
    let ghost goal = gather(ls, 0, StateView::File, Map::empty());
    let mut roster = Roster::new();
    let mut state = State::File;
    let mut i: usize = 0;
    while i < lines.len()
        invariant
            i <= lines.len(),
            ls == texts(lines@),
            goal == gather(ls, 0, StateView::File, Map::empty()),
            goal == gather(ls, i as int, state@, roster@),
        decreases lines.len() - i,
    {
        proof {
            assert(ls[i as int] == lines@[i as int]@);
        }
        match step(state, i, lines[i]) {
            Err(e) => {
                return Err(e);
            },
            Ok((next, entry)) => {
                state = next;
                match entry {
                    Some((name, party)) => {
                        roster.insert(name, party);
                    },
                    None => {},
                }
            },
        }
        i += 1;
    }
    Ok(roster)
}

/// Parses a roster source: the party of each trainer by the trainer's
/// name, or the first error.
pub fn parse_parties(file: &str) -> (result: Result<Roster, TrainerError>)
    ensures
        agrees(result, roster_of(file@)),
{
    let chars = to_chars(file);
    let lines = split_lines(chars.as_slice());
    parse_lines(&lines)
}

/// The line that opens a creature is not read: whatever stands on it, as
/// long as it does not close the party, the creature starts without any
/// field and nothing else changes.
pub proof fn lemma_opening_line_discarded(
    trainer: Seq<char>,
    party: Seq<TrainerPokemonView>,
    line: usize,
    text: Seq<char>,
)
    requires
        trim(text) != "};"@,
    ensures
        advance(StateView::Party { trainer, party }, line, text) == Ok::<
            (StateView, Option<EntryView>),
            TrainerFault,
        >((StateView::Pokemon { trainer, party, current: blank() }, None)),
{
}

/// Each `},` or `}` inside a creature adds exactly that creature to the
/// end of the party, and each `};` inside a party gives the party under
/// the name of its trainer.
pub proof fn lemma_closing_lines(
    trainer: Seq<char>,
    party: Seq<TrainerPokemonView>,
    current: TrainerPokemonView,
    line: usize,
    text: Seq<char>,
)
    ensures
        trim(text) == "},"@ || trim(text) == "}"@ ==> advance(
            StateView::Pokemon { trainer, party, current },
            line,
            text,
        ) == Ok::<(StateView, Option<EntryView>), TrainerFault>(
            (StateView::Party { trainer, party: party.push(current) }, None),
        ),
        trim(text) == "};"@ ==> advance(StateView::Party { trainer, party }, line, text) == Ok::<
            (StateView, Option<EntryView>),
            TrainerFault,
        >((StateView::File, Some((trainer, party)))),
{
}

/// A trainer is entered under the fifth word of the line that declares
/// it, without the last two characters of that word.
pub proof fn lemma_trainer_name(line: usize, text: Seq<char>)
    requires
        words(trim(text), Class::AsciiSpace).len() > 4,
    ensures
        advance(StateView::File, line, text) == Ok::<(StateView, Option<EntryView>), TrainerFault>(
            (
                StateView::Party {
                    trainer: chop(words(trim(text), Class::AsciiSpace)[4], 2),
                    party: Seq::empty(),
                },
                None,
            ),
        ),
{
    let t = trim(text);
    if t.len() == 0 {
        assert(words(t, Class::AsciiSpace).len() == 0);
    }
}

/// Two parses of one text agree: in the roster they give, or in the
/// error.
pub proof fn lemma_reparse(
    text: Seq<char>,
    first: Result<Roster, TrainerError>,
    second: Result<Roster, TrainerError>,
)
    requires
        agrees(first, roster_of(text)),
        agrees(second, roster_of(text)),
    ensures
        match (first, second) {
            (Ok(a), Ok(b)) => a@ == b@,
            (Err(e), Err(f)) => e@ == f@,
            _ => false,
        },
{
}

} // verus!
