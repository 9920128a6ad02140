//! The script source parser.
//!
//! A script source is read line by line. Outside a block a line is blank,
//! defines an alias with `.set`, is skipped as a stray line, or is a label
//! that opens a block. Inside a block every line is a command until a line
//! closes the block.

use crate::alias::{resolve, AliasTable};
use crate::error::Error;
use crate::label::{ends_with, label, read_label};
use crate::number::number;
use crate::text::{
    after_first_word, find_word, first_occurrence, first_word, lemma_first_occurrence_is,
    lemma_first_word, lemma_run, lines, pieces, reads, split_lines, split_on, split_words,
    starts_with, strings, texts, to_chars, to_text, trim, trimmed, word_start, words, Class,
};
use vstd::prelude::*;
use vstd::slice::slice_subrange;

verus! {

/// One instruction of a script.
#[derive(Debug, Clone, PartialEq, Eq)]
pub struct Command {
    /// The first word of the line.
    pub command: String,
    /// What follows it, cut at commas, each piece trimmed and resolved
    /// against the alias table.
    pub arguments: Vec<String>,
}

/// The model of a [`Command`].
pub struct CommandView {
    pub command: Seq<char>,
    pub arguments: Seq<Seq<char>>,
}

impl View for Command {
    type V = CommandView;

    open spec fn view(&self) -> CommandView {
        CommandView { command: self.command@, arguments: strings(self.arguments@) }
    }
}

/// A labelled block of commands.
#[derive(Debug, Clone, PartialEq, Eq)]
pub struct Script {
    /// The label without its `::`.
    pub name: String,
    /// The address that the label gives.
    pub location: u32,
    /// The commands of the block, in order.
    pub commands: Vec<Command>,
}

/// The model of a [`Script`].
pub struct ScriptView {
    pub name: Seq<char>,
    pub location: u32,
    pub commands: Seq<CommandView>,
}

impl View for Script {
    type V = ScriptView;

    open spec fn view(&self) -> ScriptView {
        ScriptView {
            name: self.name@,
            location: self.location,
            commands: command_views(self.commands@),
        }
    }
}

impl Default for Script {
    /// A script without name or commands, at address zero.
    fn default() -> (script: Script)
        ensures
            script@ == (ScriptView { name: Seq::empty(), location: 0, commands: Seq::empty() }),
    {
        let script = Script { name: String::new(), location: 0, commands: Vec::new() };
        proof {
            assert(command_views(script.commands@) =~= Seq::empty());
        }
        script
    }
}

/// The models of a list of commands.
pub open spec fn command_views(v: Seq<Command>) -> Seq<CommandView> {
    Seq::new(v.len(), |i: int| v[i]@)
}

/// The models of a list of scripts.
pub open spec fn script_views(v: Seq<Script>) -> Seq<ScriptView> {
    Seq::new(v.len(), |i: int| v[i]@)
}

/// Whether a trimmed line ends a block in the ordinary way.
pub open spec fn is_terminator(t: Seq<char>) -> bool {
    t == "end"@ || t == "return"@ || t == "step_end"@ || t == ".endm"@ || t.len() == 0
}

/// Whether a first word marks raw data, which ends a block early.
pub open spec fn is_data_mark(w: Seq<char>) -> bool {
    w == ".byte"@ || w == ".2byte"@
}

/// Whether a line closes the block it stands in. Such a line gives no
/// command.
pub open spec fn closes_block(line: Seq<char>) -> bool {
    is_terminator(trim(line)) || is_data_mark(first_word(line))
}

/// The command that a line inside a block gives.
pub open spec fn command_of(line: Seq<char>, aliases: Map<Seq<char>, Seq<char>>) -> CommandView {
    CommandView {
        command: first_word(line),
        arguments: pieces(after_first_word(line), ',').map_values(
            |p: Seq<char>| resolve(aliases, trim(p)),
        ),
    }
}

/// The first line at or after `from` that closes a block, or the number
/// of lines where none does.
pub open spec fn block_end(ls: Seq<Seq<char>>, from: int) -> int
    decreases ls.len() - from,
{
    if from >= ls.len() {
        ls.len() as int
    } else if closes_block(ls[from]) {
        from
    } else {
        block_end(ls, from + 1)
    }
}

/// The commands of the lines from `from` up to `to`.
pub open spec fn block_commands(
    ls: Seq<Seq<char>>,
    from: int,
    to: int,
    aliases: Map<Seq<char>, Seq<char>>,
) -> Seq<CommandView> {
    Seq::new((to - from) as nat, |t: int| command_of(ls[from + t], aliases))
}

/// The end of a block lies at or after its start, within the lines, on
/// the first line that closes it.
pub proof fn lemma_block_end(ls: Seq<Seq<char>>, from: int)
    requires
        0 <= from <= ls.len(),
    ensures
        from <= block_end(ls, from) <= ls.len(),
        forall|t: int| from <= t < block_end(ls, from) ==> !closes_block(#[trigger] ls[t]),
        block_end(ls, from) < ls.len() ==> closes_block(ls[block_end(ls, from)]),
    decreases ls.len() - from,
{
    if from < ls.len() && !closes_block(ls[from]) {
        lemma_block_end(ls, from + 1);
    }
}

/// The only line with the properties of [`lemma_block_end`] is the end of
/// the block.
pub proof fn lemma_block_end_is(ls: Seq<Seq<char>>, from: int, to: int)
    requires
        0 <= from <= to <= ls.len(),
        forall|t: int| from <= t < to ==> !closes_block(#[trigger] ls[t]),
        to < ls.len() ==> closes_block(ls[to]),
    ensures
        block_end(ls, from) == to,
    decreases to - from,
{
    if from < to {
        lemma_block_end_is(ls, from + 1, to);
    }
}

/// The scripts of the lines from `at` on, behind those already read, when
/// line `at` stands outside any block and `aliases` holds the definitions
/// made so far.
///
/// - A blank line is passed over.
/// - `.set NAME VALUE` defines an alias; a missing name or value is an
///   error.
/// - A line whose first word has fewer than four characters, or begins
///   with `@`, is passed over.
/// - Any other line must be a label. Its block runs to the first line that
///   closes it; the source may not end before.
pub open spec fn scan(
    ls: Seq<Seq<char>>,
    at: int,
    aliases: Map<Seq<char>, Seq<char>>,
    read: Seq<ScriptView>,
) -> Result<Seq<ScriptView>, Error>
    decreases ls.len() - at,
{
    if at < 0 || at >= ls.len() {
        Ok(read)
    } else {
        let ws = words(ls[at], Class::Space);
        if ws.len() == 0 {
            scan(ls, at + 1, aliases, read)
        } else if ws[0] == ".set"@ {
            if ws.len() < 2 {
                Err(Error::SetName(at as usize))
            } else if ws.len() < 3 {
                Err(Error::SetVariable(at as usize))
            } else {
                scan(ls, at + 1, aliases.insert(ws[1], ws[2]), read)
            }
        } else if ws[0].len() < 4 || ws[0][0] == '@' {
            scan(ls, at + 1, aliases, read)
        } else {
            match label(ws, at as usize) {
                Err(e) => Err(e),
                Ok((name, location)) => {
                    let end = block_end(ls, at + 1);
                    if end >= ls.len() {
                        Err(Error::EndOfFile("script"))
                    } else {
                        proof {
                            lemma_block_end(ls, at + 1);
                        }
                        scan(
                            ls,
                            end + 1,
                            aliases,
                            read.push(
                                ScriptView {
                                    name,
                                    location,
                                    commands: block_commands(ls, at + 1, end, aliases),
                                },
                            ),
                        )
                    }
                },
            }
        }
    }
}

/// The scripts of a source text, or the first error in it.
pub open spec fn scripts_of(text: Seq<char>) -> Result<Seq<ScriptView>, Error> {
    scan(lines(text), 0, Map::empty(), Seq::empty())
}

/// Whether the outcome of a parse is the one the model gives.
pub open spec fn agrees(
    got: Result<Vec<Script>, Error>,
    want: Result<Seq<ScriptView>, Error>,
) -> bool {
    match (got, want) {
        (Ok(scripts), Ok(views)) => script_views(scripts@) == views,
        (Err(e), Err(f)) => e == f,
        _ => false,
    }
}

/// Reads the command of a line inside a block.
pub fn read_command(line: &[char], aliases: &AliasTable) -> (command: Command)
    ensures
        command@ == command_of(line@, aliases@),
{
    let (a, b) = find_word(line);
    let name = to_text(slice_subrange(line, a, b));
    let rest = slice_subrange(line, b, line.len());
    let parts = split_on(rest, ',');
    let ghost want = pieces(after_first_word(line@), ',').map_values(
        |p: Seq<char>| resolve(aliases@, trim(p)),
    );
    let mut arguments: Vec<String> = Vec::new();
    let mut i: usize = 0;
    while i < parts.len()
        invariant
            i <= parts.len(),
            texts(parts@) == pieces(after_first_word(line@), ','),
            want == pieces(after_first_word(line@), ',').map_values(
                |p: Seq<char>| resolve(aliases@, trim(p)),
            ),
            strings(arguments@) == want.take(i as int),
        decreases parts.len() - i,
    {
        let argument = aliases.resolve(trimmed(parts[i]));
        proof {
            let cut = pieces(after_first_word(line@), ',');
            assert(texts(parts@)[i as int] == parts@[i as int]@);
            assert(want[i as int] == resolve(aliases@, trim(cut[i as int])));
            assert(want.take(i + 1) == want.take(i as int).push(want[i as int]));
            assert(strings(arguments@.push(argument)) =~= strings(arguments@).push(argument@));
        }
        arguments.push(argument);
        i += 1;
    }
    proof {
        assert(want.take(parts.len() as int) == want);
    }
    Command { command: name, arguments }
}

/// Whether a line closes the block it stands in.
pub fn ends_block(line: &[char]) -> (r: bool)
    ensures
        r == closes_block(line@),
{
    let t = trimmed(line);
    if t.len() == 0 || reads(t, "end") || reads(t, "return") || reads(t, "step_end") || reads(
        t,
        ".endm",
    ) {
        return true;
    }
    let (a, b) = find_word(line);
    let w = slice_subrange(line, a, b);
    reads(w, ".byte") || reads(w, ".2byte")
}

/// Reads the block that starts at line `from`: its commands and the line
/// that closes it, or `None` where the lines end first.
pub fn read_block(lines: &Vec<&[char]>, from: usize, aliases: &AliasTable) -> (r: Option<
    (Vec<Command>, usize),
>)
    requires
        from <= lines.len(),
    ensures
        match r {
            None => block_end(texts(lines@), from as int) >= lines.len(),
            Some((commands, end)) => {
                &&& from <= end < lines.len()
                &&& end == block_end(texts(lines@), from as int)
                &&& command_views(commands@) == block_commands(
                    texts(lines@),
                    from as int,
                    end as int,
                    aliases@,
                )
            },
        },
{
    let ghost ls = texts(lines@);
    let mut commands: Vec<Command> = Vec::new();
    let mut j: usize = from;
    while j < lines.len()
        invariant
            from <= j <= lines.len(),
            ls == texts(lines@),
            forall|t: int| from <= t < j ==> !closes_block(#[trigger] ls[t]),
            command_views(commands@) == block_commands(ls, from as int, j as int, aliases@),
        decreases lines.len() - j,
    {
        proof {
            assert(ls[j as int] == lines@[j as int]@);
        }
        if ends_block(lines[j]) {
            proof {
                lemma_block_end_is(ls, from as int, j as int);
            }
            return Some((commands, j));
        }
        let command = read_command(lines[j], aliases);
        proof {
            let before = block_commands(ls, from as int, j as int, aliases@);
            let after = block_commands(ls, from as int, j + 1, aliases@);
            assert(after =~= before.push(command@));
            assert(command_views(commands@.push(command)) =~= command_views(commands@).push(
                command@,
            ));
            assert(command_views(commands@.push(command)) == block_commands(
                ls,
                from as int,
                j + 1,
                aliases@,
            ));
        }
        commands.push(command);
        j += 1;
    }
    proof {
        lemma_block_end_is(ls, from as int, j as int);
    }
    None
}

/// Parses the lines of a script source.
pub fn parse_lines(lines: &Vec<&[char]>) -> (result: Result<Vec<Script>, Error>)
    ensures
        agrees(result, scan(texts(lines@), 0, Map::empty(), Seq::empty())),
{
    let ghost ls = texts(lines@);
    let ghost goal = scan(ls, 0, Map::empty(), Seq::empty());
    let mut scripts: Vec<Script> = Vec::new();
    let mut aliases = AliasTable::new();
    let mut i: usize = 0;
    proof {
        assert(script_views(scripts@) =~= Seq::empty());
    }
    while i < lines.len()
        invariant
            i <= lines.len(),
            ls == texts(lines@),
            goal == scan(ls, 0, Map::empty(), Seq::empty()),
            goal == scan(ls, i as int, aliases@, script_views(scripts@)),
        decreases lines.len() - i,
    {
        proof {
            assert(ls[i as int] == lines@[i as int]@);
        }
        let ws = split_words(lines[i], &Class::Space);
        proof {
            assert(texts(ws@) == words(ls[i as int], Class::Space));
            assert(forall|t: int| 0 <= t < ws.len() ==> #[trigger] texts(ws@)[t] == ws@[t]@);
        }
        if ws.len() == 0 {
            i += 1;
        } else if reads(ws[0], ".set") {
            if ws.len() < 2 {
                return Err(Error::SetName(i));
            }
            if ws.len() < 3 {
                return Err(Error::SetVariable(i));
            }
            aliases.set(to_text(ws[1]), to_text(ws[2]));
            i += 1;
        } else if ws[0].len() < 4 || ws[0][0] == '@' {
            i += 1;
        } else {
            match read_label(&ws, i) {
                Err(e) => {
                    return Err(e);
                },
                Ok((name, location)) => {
                    match read_block(lines, i + 1, &aliases) {
                        None => {
                            return Err(Error::EndOfFile("script"));
                        },
                        Some((commands, end)) => {
                            let script = Script { name, location, commands };
                            proof {
                                assert(script_views(scripts@.push(script)) =~= script_views(
                                    scripts@,
                                ).push(script@));
                            }
                            scripts.push(script);
                            i = end + 1;
                        },
                    }
                },
            }
        }
    }
    Ok(scripts)
}

/// Parses a script source: the scripts in the order of their labels, or the
/// first error.
pub fn parse(script: &str) -> (result: Result<Vec<Script>, Error>)
    ensures
        agrees(result, scripts_of(script@)),
{
    let chars = to_chars(script);
    let lines = split_lines(chars.as_slice());
    parse_lines(&lines)
}

/// Whether a line outside a block is taken for a label: it has a first
/// word that is not `.set`, has four characters or more and does not
/// begin with `@`.
pub open spec fn opens_block(line: Seq<char>) -> bool {
    let ws = words(line, Class::Space);
    ws.len() > 0 && ws[0] != ".set"@ && ws[0].len() >= 4 && ws[0][0] != '@'
}

/// Whether a line outside a block is passed over: it is blank, or its
/// first word is not `.set` and is too short for a label or begins with
/// `@`.
pub open spec fn passed_over(line: Seq<char>) -> bool {
    let ws = words(line, Class::Space);
    ws.len() == 0 || (ws[0] != ".set"@ && (ws[0].len() < 4 || ws[0][0] == '@'))
}

/// A label of the wrong shape stops the parse with the error of its kind
/// and the number of its line: `ScriptName` where the first word does not
/// end in `::` or the second is not `@`, `ScriptLocation` where no address
/// follows, `MalformedLocation` where the address is no number.
pub proof fn lemma_malformed_label(
    ls: Seq<Seq<char>>,
    at: int,
    aliases: Map<Seq<char>, Seq<char>>,
    read: Seq<ScriptView>,
)
    requires
        0 <= at < ls.len(),
        opens_block(ls[at]),
    ensures
        ({
            let ws = words(ls[at], Class::Space);
            let line = at as usize;
            let got = scan(ls, at, aliases, read);
            &&& !ends_with(ws[0], "::"@) ==> got == Err::<Seq<ScriptView>, Error>(
                Error::ScriptName(line),
            )
            &&& ws.len() < 2 || ws[1] != "@"@ ==> got == Err::<Seq<ScriptView>, Error>(
                Error::ScriptName(line),
            )
            &&& ends_with(ws[0], "::"@) && ws.len() == 2 && ws[1] == "@"@ ==> got == Err::<
                Seq<ScriptView>,
                Error,
            >(Error::ScriptLocation(line))
            &&& ends_with(ws[0], "::"@) && ws.len() > 2 && ws[1] == "@"@ ==> (number(
                ws[2],
                16,
                u32::MAX,
            ) matches Err(why) ==> got == Err::<Seq<ScriptView>, Error>(
                Error::MalformedLocation(why, line),
            ))
        }),
{
}

/// Lines that are passed over do not change the outcome: a parse that
/// stands before a run of them goes on behind it.
pub proof fn lemma_passed_over(
    ls: Seq<Seq<char>>,
    from: int,
    to: int,
    aliases: Map<Seq<char>, Seq<char>>,
    read: Seq<ScriptView>,
)
    requires
        0 <= from <= to <= ls.len(),
        forall|t: int| from <= t < to ==> passed_over(#[trigger] ls[t]),
    ensures
        scan(ls, from, aliases, read) == scan(ls, to, aliases, read),
    decreases to - from,
{
    if from < to {
        assert(passed_over(ls[from]));
        lemma_passed_over(ls, from + 1, to, aliases, read);
    }
}

/// A source whose first line that is not passed over is a label of the
/// wrong shape is rejected with the error that the label gives for the
/// number of that line.
pub proof fn lemma_first_label_malformed(text: Seq<char>, at: int)
    requires
        0 <= at < lines(text).len(),
        forall|t: int| 0 <= t < at ==> passed_over(#[trigger] lines(text)[t]),
        opens_block(lines(text)[at]),
        label(words(lines(text)[at], Class::Space), at as usize) is Err,
    ensures
        scripts_of(text) == Err::<Seq<ScriptView>, Error>(
            label(words(lines(text)[at], Class::Space), at as usize)->Err_0,
        ),
{
    lemma_passed_over(lines(text), 0, at, Map::empty(), Seq::empty());
}

/// An error of the script parser speaks of a line at or behind the one
/// the parse stood on, within the lines, or of none. Inside a block no
/// line is an error, so `NoCommand` and `NoArguments` never come.
pub proof fn lemma_errors(
    ls: Seq<Seq<char>>,
    at: int,
    aliases: Map<Seq<char>, Seq<char>>,
    read: Seq<ScriptView>,
)
    requires
        0 <= at,
        ls.len() <= usize::MAX,
    ensures
        scan(ls, at, aliases, read) matches Err(e) ==> {
            &&& !(e is NoCommand) && !(e is NoArguments)
            &&& e.at_line() matches Some(line) ==> at <= line < ls.len()
            &&& e is EndOfFile ==> e == Error::EndOfFile("script")
        },
    decreases ls.len() - at,
{
    if at < ls.len() {
        let ws = words(ls[at], Class::Space);
        if ws.len() == 0 {
            lemma_errors(ls, at + 1, aliases, read);
        } else if ws[0] == ".set"@ {
            if ws.len() >= 3 {
                lemma_errors(ls, at + 1, aliases.insert(ws[1], ws[2]), read);
            }
        } else if ws[0].len() < 4 || ws[0][0] == '@' {
            lemma_errors(ls, at + 1, aliases, read);
        } else {
            match label(ws, at as usize) {
                Err(e) => {},
                Ok((name, location)) => {
                    let end = block_end(ls, at + 1);
                    if end < ls.len() {
                        lemma_block_end(ls, at + 1);
                        lemma_errors(
                            ls,
                            end + 1,
                            aliases,
                            read.push(
                                ScriptView {
                                    name,
                                    location,
                                    commands: block_commands(ls, at + 1, end, aliases),
                                },
                            ),
                        );
                    }
                },
            }
        }
    }
}

/// A block that no line closes is an error, whatever its lines hold: the
/// parse ends with `EndOfFile` and gives no scripts.
pub proof fn lemma_unterminated_block(
    ls: Seq<Seq<char>>,
    at: int,
    aliases: Map<Seq<char>, Seq<char>>,
    read: Seq<ScriptView>,
)
    requires
        0 <= at < ls.len(),
        opens_block(ls[at]),
        label(words(ls[at], Class::Space), at as usize) is Ok,
        forall|t: int| at < t < ls.len() ==> !closes_block(#[trigger] ls[t]),
    ensures
        scan(ls, at, aliases, read) == Err::<Seq<ScriptView>, Error>(Error::EndOfFile("script")),
{
    lemma_block_end_is(ls, at + 1, ls.len() as int);
}

/// A line that begins with `.byte` or `.2byte` closes the block it stands
/// in without error. The block holds one command for each line before it
/// and none for the line itself, and the parse goes on behind it.
pub proof fn lemma_data_mark_closes(
    ls: Seq<Seq<char>>,
    at: int,
    mark: int,
    aliases: Map<Seq<char>, Seq<char>>,
    read: Seq<ScriptView>,
)
    requires
        0 <= at < mark < ls.len(),
        opens_block(ls[at]),
        label(words(ls[at], Class::Space), at as usize) is Ok,
        forall|t: int| at < t < mark ==> !closes_block(#[trigger] ls[t]),
        is_data_mark(first_word(ls[mark])),
    ensures
        ({
            let head = label(words(ls[at], Class::Space), at as usize)->Ok_0;
            let commands = block_commands(ls, at + 1, mark, aliases);
            &&& commands.len() == mark - at - 1
            &&& forall|t: int|
                at < t < mark ==> #[trigger] commands[t - at - 1] == command_of(ls[t], aliases)
            &&& scan(ls, at, aliases, read) == scan(
                ls,
                mark + 1,
                aliases,
                read.push(ScriptView { name: head.0, location: head.1, commands }),
            )
        }),
{
    lemma_block_end_is(ls, at + 1, mark);
}

/// An argument that is a name of the alias table is replaced by what the
/// table gives for it; any other argument stands as it was written,
/// trimmed.
pub proof fn lemma_alias_replaces(line: Seq<char>, aliases: Map<Seq<char>, Seq<char>>, k: int)
    requires
        0 <= k < pieces(after_first_word(line), ',').len(),
    ensures
        ({
            let written = trim(pieces(after_first_word(line), ',')[k]);
            let arguments = command_of(line, aliases).arguments;
            &&& arguments.len() == pieces(after_first_word(line), ',').len()
            &&& aliases.contains_key(written) ==> arguments[k] == aliases[written]
            &&& !aliases.contains_key(written) ==> arguments[k] == written
        }),
{
}

/// The arguments of a command are what follows the first place in the
/// line at which the command's name occurs.
pub proof fn lemma_arguments_follow_name(line: Seq<char>)
    requires
        word_start(line) < line.len(),
    ensures
        first_occurrence(line, first_word(line)) == word_start(line),
        after_first_word(line) == line.skip(
            first_occurrence(line, first_word(line)) + first_word(line).len(),
        ),
{
    lemma_first_word(line);
    lemma_run(line, Class::Space, true);
    let w = first_word(line);
    let a = word_start(line);
    assert(starts_with(line.skip(a), w)) by {
        assert(line.skip(a).take(w.len() as int) == w);
    }
    assert forall|j: int| 0 <= j < a implies !#[trigger] starts_with(line.skip(j), w) by {
        if starts_with(line.skip(j), w) {
            assert(line.skip(j).take(w.len() as int)[0] == line[j]);
            assert(Class::Space.has(line[j]));
        }
    }
    lemma_first_occurrence_is(line, w, a);
}

/// Two parses of one text agree: in the scripts they give, or in the
/// error.
pub proof fn lemma_reparse(
    text: Seq<char>,
    first: Result<Vec<Script>, Error>,
    second: Result<Vec<Script>, Error>,
)
    requires
        agrees(first, scripts_of(text)),
        agrees(second, scripts_of(text)),
    ensures
        match (first, second) {
            (Ok(a), Ok(b)) => script_views(a@) == script_views(b@),
            (Err(e), Err(f)) => e == f,
            _ => false,
        },
{
}

} // verus!
