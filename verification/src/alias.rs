//! The alias table that `.set` lines build.

use crate::text::to_text;
use vstd::hash_map::StringHashMap;
use vstd::prelude::*;

verus! {

/// What a token stands for: its replacement where the table has one, else
/// the token itself. A replacement is not looked up again.
pub open spec fn resolve(aliases: Map<Seq<char>, Seq<char>>, token: Seq<char>) -> Seq<char> {
    if aliases.contains_key(token) {
        aliases[token]
    } else {
        token
    }
}

/// Names and their replacement texts. A later definition of a name
/// replaces the earlier one.
pub struct AliasTable {
    entries: StringHashMap<String>,
}

impl View for AliasTable {
    type V = Map<Seq<char>, Seq<char>>;

    closed spec fn view(&self) -> Map<Seq<char>, Seq<char>> {
        self.entries@.map_values(|v: String| v@)
    }
}

impl AliasTable {
    /// A table without names.
    pub fn new() -> (table: Self)
        ensures
            table@ == Map::<Seq<char>, Seq<char>>::empty(),
    {
        let table = AliasTable { entries: StringHashMap::new() };
        proof {
            assert(table@ =~= Map::<Seq<char>, Seq<char>>::empty());
        }
        table
    }

    /// Defines `name` as `value`.
    pub fn set(&mut self, name: String, value: String)
        ensures
            final(self)@ == old(self)@.insert(name@, value@),
    {
        self.entries.insert(name, value);
        proof {
            assert(self@ =~= old(self)@.insert(name@, value@));
        }
    }

    /// The text that `token` stands for.
    pub fn resolve(&self, token: &[char]) -> (out: String)
        ensures
            out@ == resolve(self@, token@),
    {
        let key = to_text(token);
        match self.entries.get(key.as_str()) {
            Some(value) => value.clone(),
            None => key,
        }
    }
}

} // verus!
