//! Rules by which parsed records are resolved when a world map is put
//! together: how constants turn into names, and what the script of a
//! character or a sign says about it.

use crate::script::{CommandView, Script};
use crate::text::{reads, to_chars, to_text};
use crate::tiny::{fits_tiny, tiny, tiny_text};
use vstd::prelude::*;
use vstd::slice::slice_subrange;

verus! {

/// An upper-case ASCII letter as its lower-case letter; any other
/// character as itself.
pub open spec fn lower(c: char) -> char {
    if 'A' <= c && c <= 'Z' {
        ((c as u8 + 32) as u8) as char
    } else {
        c
    }
}

/// Executable form of [`lower`].
pub fn to_lower(c: char) -> (l: char)
    ensures
        l == lower(c),
{
    if 'A' <= c && c <= 'Z' {
        (c as u8 + 32) as char
    } else {
        c
    }
}

/// A text with its upper-case ASCII letters in lower case.
pub open spec fn lowered(s: Seq<char>) -> Seq<char> {
    s.map_values(|c: char| lower(c))
}

/// Whether two texts are equal but for the case of their ASCII letters.
pub fn same_ignoring_case(a: &[char], b: &[char]) -> (r: bool)
    ensures
        r == (lowered(a@) == lowered(b@)),
{
    if a.len() != b.len() {
        proof {
            assert(lowered(a@).len() != lowered(b@).len());
        }
        return false;
    }
    let mut i: usize = 0;
    while i < a.len()
        invariant
            i <= a.len(),
            a.len() == b.len(),
            forall|j: int| 0 <= j < i ==> lower(#[trigger] a@[j]) == lower(b@[j]),
        decreases a.len() - i,
    {
        if to_lower(a[i]) != to_lower(b[i]) {
            proof {
                assert(lowered(a@)[i as int] != lowered(b@)[i as int]);
            }
            return false;
        }
        i += 1;
    }
    proof {
        assert(lowered(a@) =~= lowered(b@));
    }
    true
}

/// The short form of a map identifier: the identifier without its first
/// four characters, and of what is left the first twelve and the last
/// four where that has sixteen or more. `None` where the identifier has
/// fewer than four characters.
pub open spec fn truncated(id: Seq<char>) -> Option<Seq<char>> {
    let rest = id.skip(4);
    if id.len() < 4 {
        None
    } else if rest.len() >= 16 {
        Some(rest.take(12) + rest.skip(rest.len() - 4))
    } else {
        Some(rest)
    }
}

/// A short form is never longer than sixteen characters.
pub proof fn lemma_truncated_fits(id: Seq<char>)
    ensures
        truncated(id) matches Some(short) ==> short.len() <= 16,
{
}

/// The short form of a map identifier as a tiny string. `None` where
/// the identifier has no short form, or one that cannot be a tiny
/// string.
pub fn truncate_id(id: &str) -> (r: Option<tinystr::TinyStr16>)
    ensures
        r is Some <==> (truncated(id@) matches Some(short) && fits_tiny(short)),
        r matches Some(t) ==> truncated(id@) == Some(tiny_text(t)),
{
    match short_form(id) {
        Some(short) => tiny(short.as_str()),
        None => None,
    }
}

/// Executable form of [`truncated`].
pub fn short_form(id: &str) -> (r: Option<String>)
    ensures
        match r {
            Some(short) => truncated(id@) == Some(short@),
            None => truncated(id@) is None,
        },
{
    let chars = to_chars(id);
    if chars.len() < 4 {
        return None;
    }
    let rest = slice_subrange(chars.as_slice(), 4, chars.len());
    if rest.len() >= 16 {
        let mut short = to_text(slice_subrange(rest, 0, 12));
        let tail = slice_subrange(rest, rest.len() - 4, rest.len());
        let mut i: usize = 0;
        while i < tail.len()
            invariant
                i <= tail.len(),
                short@ == rest@.take(12) + tail@.take(i as int),
            decreases tail.len() - i,
        {
            short.push(tail[i]);
            proof {
                assert(tail@.take(i + 1) == tail@.take(i as int).push(tail@[i as int]));
                assert(rest@.take(12) + tail@.take(i as int).push(tail@[i as int]) == (rest@.take(
                    12,
                ) + tail@.take(i as int)).push(tail@[i as int]));
            }
            i += 1;
        }
        proof {
            assert(tail@.take(tail.len() as int) == tail@);
        }
        Some(short)
    } else {
        Some(to_text(rest))
    }
}

/// The name that a constant stands for: the constant without its first
/// `skip` characters, the prefix of its kind, with `with` in place of
/// every underscore. `None` where the constant is shorter than the
/// prefix.
pub open spec fn named(constant: Seq<char>, skip: int, with: char) -> Option<Seq<char>> {
    if constant.len() < skip {
        None
    } else {
        Some(
            constant.skip(skip).map_values(
                |c: char|
                    if c == '_' {
                        with
                    } else {
                        c
                    },
            ),
        )
    }
}

/// Executable form of [`named`].
pub fn dex_name(constant: &str, skip: usize, with: char) -> (r: Option<String>)
    ensures
        match r {
            Some(name) => named(constant@, skip as int, with) == Some(name@),
            None => named(constant@, skip as int, with) is None,
        },
{
    let chars = to_chars(constant);
    if chars.len() < skip {
        return None;
    }
    let ghost want = named(constant@, skip as int, with)->0;
    let mut name = String::new();
    let mut i: usize = skip;
    while i < chars.len()
        invariant
            skip <= i <= chars.len(),
            chars@ == constant@,
            want == named(constant@, skip as int, with)->0,
            name@ == want.take(i - skip),
        decreases chars.len() - i,
    {
        let c = chars[i];
        proof {
            assert(want.take(i - skip + 1) == want.take(i - skip).push(want[i - skip]));
        }
        name.push(
            if c == '_' {
                with
            } else {
                c
            },
        );
        i += 1;
    }
    proof {
        assert(want.take(chars.len() - skip) == want);
    }
    Some(name)
}

/// The name of an item as the item table spells it: the constant without
/// its first `skip` characters, in lower case. `None` where the constant
/// is shorter than the prefix.
pub open spec fn lower_named(constant: Seq<char>, skip: int) -> Option<Seq<char>> {
    if constant.len() < skip {
        None
    } else {
        Some(lowered(constant.skip(skip)))
    }
}

/// Executable form of [`lower_named`].
pub fn lower_name(constant: &str, skip: usize) -> (r: Option<String>)
    ensures
        match r {
            Some(name) => lower_named(constant@, skip as int) == Some(name@),
            None => lower_named(constant@, skip as int) is None,
        },
{
    let chars = to_chars(constant);
    if chars.len() < skip {
        return None;
    }
    let ghost want = lowered(constant@.skip(skip as int));
    let mut name = String::new();
    let mut i: usize = skip;
    while i < chars.len()
        invariant
            skip <= i <= chars.len(),
            chars@ == constant@,
            want == lowered(constant@.skip(skip as int)),
            name@ == want.take(i - skip),
        decreases chars.len() - i,
    {
        proof {
            assert(want.take(i - skip + 1) == want.take(i - skip).push(want[i - skip]));
        }
        name.push(to_lower(chars[i]));
        i += 1;
    }
    proof {
        assert(want.take(chars.len() - skip) == want);
    }
    Some(name)
}

/// Whether a text ends with `suffix`, but for the case of ASCII letters.
/// `None` where the text is shorter than the suffix.
pub open spec fn closes_with(text: Seq<char>, suffix: Seq<char>) -> Option<bool> {
    if text.len() < suffix.len() {
        None
    } else {
        Some(lowered(text.skip(text.len() - suffix.len())) == lowered(suffix))
    }
}

/// Executable form of [`closes_with`].
pub fn ends_ignoring_case(text: &str, suffix: &str) -> (r: Option<bool>)
    ensures
        r == closes_with(text@, suffix@),
{
    let t = to_chars(text);
    let s = to_chars(suffix);
    if t.len() < s.len() {
        return None;
    }
    Some(same_ignoring_case(slice_subrange(t.as_slice(), t.len() - s.len(), t.len()), s.as_slice()))
}

/// Whether a command bears the name `name`, exactly or but for the case
/// of ASCII letters.
pub open spec fn is_named(c: CommandView, name: Seq<char>, any_case: bool) -> bool {
    if any_case {
        lowered(c.command) == lowered(name)
    } else {
        c.command == name
    }
}

/// The place of the first command named `name` at or behind `from`; the
/// number of commands where there is none.
pub open spec fn first_named(
    cs: Seq<CommandView>,
    name: Seq<char>,
    any_case: bool,
    from: int,
) -> int
    decreases cs.len() - from,
{
    if from >= cs.len() {
        cs.len() as int
    } else if is_named(cs[from], name, any_case) {
        from
    } else {
        first_named(cs, name, any_case, from + 1)
    }
}

/// The first command of that name lies within the script, bears the name,
/// and no command before it does.
pub proof fn lemma_first_named(cs: Seq<CommandView>, name: Seq<char>, any_case: bool, from: int)
    requires
        0 <= from <= cs.len(),
    ensures
        from <= first_named(cs, name, any_case, from) <= cs.len(),
        forall|t: int|
            from <= t < first_named(cs, name, any_case, from) ==> !is_named(
                #[trigger] cs[t],
                name,
                any_case,
            ),
        first_named(cs, name, any_case, from) < cs.len() ==> is_named(
            cs[first_named(cs, name, any_case, from)],
            name,
            any_case,
        ),
    decreases cs.len() - from,
{
    if from < cs.len() && !is_named(cs[from], name, any_case) {
        lemma_first_named(cs, name, any_case, from + 1);
    }
}

/// Where the first command named `name` stands in a script, if there is
/// one.
pub fn find_command(script: &Script, name: &str, any_case: bool) -> (r: Option<usize>)
    ensures
        match r {
            Some(at) => at < script.commands.len() && at == first_named(
                script@.commands,
                name@,
                any_case,
                0,
            ),
            None => first_named(script@.commands, name@, any_case, 0) == script.commands.len(),
        },
{
    let wanted = to_chars(name);
    let ghost cs = script@.commands;
    let mut i: usize = 0;
    while i < script.commands.len()
        invariant
            i <= script.commands.len(),
            cs == script@.commands,
            cs.len() == script.commands.len(),
            wanted@ == name@,
            first_named(cs, name@, any_case, 0) == first_named(cs, name@, any_case, i as int),
        decreases script.commands.len() - i,
    {
        let command = to_chars(script.commands[i].command.as_str());
        proof {
            assert(cs[i as int] == script.commands@[i as int]@);
        }
        let found = if any_case {
            same_ignoring_case(command.as_slice(), wanted.as_slice())
        } else {
            reads(command.as_slice(), name)
        };
        if found {
            return Some(i);
        }
        i += 1;
    }
    None
}

/// What the script of a sign says: the first argument of its first
/// `msgbox`, the name of a message.
pub open spec fn sign_text(cs: Seq<CommandView>) -> Option<Seq<char>> {
    let at = first_named(cs, "msgbox"@, false, 0);
    if at < cs.len() && cs[at].arguments.len() > 0 {
        Some(cs[at].arguments[0])
    } else {
        None
    }
}

/// Executable form of [`sign_text`].
pub fn sign_message(script: &Script) -> (r: Option<String>)
    ensures
        match r {
            Some(name) => sign_text(script@.commands) == Some(name@),
            None => sign_text(script@.commands) is None,
        },
{
    match find_command(script, "msgbox", false) {
        None => None,
        Some(at) => {
            let command = &script.commands[at];
            proof {
                assert(script@.commands[at as int] == command@);
            }
            if command.arguments.len() > 0 {
                Some(command.arguments[0].clone())
            } else {
                None
            }
        },
    }
}

/// The battle that a character's script starts: the names of the trainer
/// and of the messages at its start and at its end.
#[derive(Debug, Clone, PartialEq, Eq)]
pub struct Battle {
    pub trainer: String,
    pub encounter: String,
    pub defeat: String,
}

/// The model of a [`Battle`].
pub struct BattleView {
    pub trainer: Seq<char>,
    pub encounter: Seq<char>,
    pub defeat: Seq<char>,
}

impl View for Battle {
    type V = BattleView;

    open spec fn view(&self) -> BattleView {
        BattleView { trainer: self.trainer@, encounter: self.encounter@, defeat: self.defeat@ }
    }
}

/// What the script of a character says about it: the message it speaks,
/// if any, and the battle it starts, if any.
#[derive(Debug, Clone, PartialEq, Eq)]
pub struct Encounter {
    pub message: Option<String>,
    pub battle: Option<Battle>,
}

/// The model of an [`Encounter`].
pub struct EncounterView {
    pub message: Option<Seq<char>>,
    pub battle: Option<BattleView>,
}

impl View for Encounter {
    type V = EncounterView;

    open spec fn view(&self) -> EncounterView {
        EncounterView {
            message: match self.message {
                Some(m) => Some(m@),
                None => None,
            },
            battle: match self.battle {
                Some(b) => Some(b@),
                None => None,
            },
        }
    }
}

/// What a script of the commands `cs` says about its character, which is
/// a trainer or not.
///
/// - A script of the one command `msgbox` speaks the message that its
///   first argument names.
/// - The script of a trainer with a `trainerbattle_single` in it, in any
///   case of letters, starts the battle that the first three arguments of
///   that command name, and speaks what its first `msgbox` names, or
///   nothing where it has none.
/// - `None` where a command lacks an argument that is called for.
pub open spec fn encounter_of(cs: Seq<CommandView>, trainer: bool) -> Option<EncounterView> {
    let sole = cs.len() == 1 && cs[0].command == "msgbox"@;
    let fight = first_named(cs, "trainerbattle_single"@, true, 0);
    let talk = first_named(cs, "msgbox"@, false, 0);
    if sole && cs[0].arguments.len() == 0 {
        None
    } else if !trainer || fight >= cs.len() {
        Some(
            EncounterView {
                message: if sole {
                    Some(cs[0].arguments[0])
                } else {
                    None
                },
                battle: None,
            },
        )
    } else if cs[fight].arguments.len() < 3 {
        None
    } else if talk < cs.len() && cs[talk].arguments.len() == 0 {
        None
    } else {
        Some(
            EncounterView {
                message: if talk < cs.len() {
                    Some(cs[talk].arguments[0])
                } else if sole {
                    Some(cs[0].arguments[0])
                } else {
                    None
                },
                battle: Some(
                    BattleView {
                        trainer: cs[fight].arguments[0],
                        encounter: cs[fight].arguments[1],
                        defeat: cs[fight].arguments[2],
                    },
                ),
            },
        )
    }
}

/// Executable form of [`encounter_of`].
pub fn read_encounter(script: &Script, trainer: bool) -> (r: Option<Encounter>)
    ensures
        match r {
            Some(e) => encounter_of(script@.commands, trainer) == Some(e@),
            None => encounter_of(script@.commands, trainer) is None,
        },
{
    let ghost cs = script@.commands;
    let mut message: Option<String> = None;
    if script.commands.len() == 1 {
        let only = &script.commands[0];
        proof {
            assert(cs[0] == only@);
        }
        let name = to_chars(only.command.as_str());
        if reads(name.as_slice(), "msgbox") {
            if only.arguments.len() == 0 {
                return None;
            }
            message = Some(only.arguments[0].clone());
        }
    }
    if !trainer {
        return Some(Encounter { message, battle: None });
    }
    match find_command(script, "trainerbattle_single", true) {
        None => Some(Encounter { message, battle: None }),
        Some(fight) => {
            let command = &script.commands[fight];
            proof {
                assert(cs[fight as int] == command@);
            }
            if command.arguments.len() < 3 {
                return None;
            }
            let battle = Battle {
                trainer: command.arguments[0].clone(),
                encounter: command.arguments[1].clone(),
                defeat: command.arguments[2].clone(),
            };
            match find_command(script, "msgbox", false) {
                None => Some(Encounter { message, battle: Some(battle) }),
                Some(talk) => {
                    let spoken = &script.commands[talk];
                    proof {
                        assert(cs[talk as int] == spoken@);
                    }
                    if spoken.arguments.len() == 0 {
                        return None;
                    }
                    Some(
                        Encounter {
                            message: Some(spoken.arguments[0].clone()),
                            battle: Some(battle),
                        },
                    )
                },
            }
        },
    }
}

} // verus!
