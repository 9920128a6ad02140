//! The roster: trainer names and their parties, kept in a hash map.

use crate::trainer::party::{pokemon_views, TrainerPokemon, TrainerPokemonView};
use vstd::prelude::*;

verus! {

/// The parties of the trainers, by trainer name, in a
/// `hashbrown::HashMap`. Nothing of its inside is known here: what it
/// holds goes by the name [`held`].
#[verifier::external_body]
#[derive(Debug, PartialEq, Eq)]
pub struct Roster {
    parties: hashbrown::HashMap<String, Vec<TrainerPokemon>>,
}

/// What a roster holds: the party of each trainer name in it.
pub uninterp spec fn held(roster: Roster) -> Map<Seq<char>, Seq<TrainerPokemonView>>;

impl View for Roster {
    type V = Map<Seq<char>, Seq<TrainerPokemonView>>;

    open spec fn view(&self) -> Map<Seq<char>, Seq<TrainerPokemonView>> {
        held(*self)
    }
}

/// `hashbrown::HashMap::new` makes a map that holds nothing.
#[verifier::external_body]
fn fresh() -> (roster: Roster)
    ensures
        held(roster) =~= Map::empty(),
{
    Roster { parties: hashbrown::HashMap::new() }
}

/// `hashbrown::HashMap::insert` stores the value under the key, in place
/// of a value that the key had before; other keys keep theirs.
#[verifier::external_body]
fn put(roster: &mut Roster, name: String, party: Vec<TrainerPokemon>)
    ensures
        held(*final(roster)) == held(*old(roster)).insert(name@, pokemon_views(party@)),
{
    roster.parties.insert(name, party);
}

/// `hashbrown::HashMap::get` finds the value stored under a key, and
/// nothing where the map has no such key.
#[verifier::external_body]
fn lookup<'a>(roster: &'a Roster, name: &str) -> (party: Option<&'a Vec<TrainerPokemon>>)
    ensures
        match party {
            Some(p) => held(*roster).contains_key(name@) && pokemon_views(p@) == held(
                *roster,
            )[name@],
            None => !held(*roster).contains_key(name@),
        },
{
    roster.parties.get(name)
}

/// `hashbrown::HashMap::into_iter` hands out every key of the map with
/// its value, each key once, in an order that is not stated.
#[verifier::external_body]
fn drain(roster: Roster) -> (entries: Vec<(String, Vec<TrainerPokemon>)>)
    ensures
        forall|i: int|
            0 <= i < entries.len() ==> held(roster).contains_key((#[trigger] entries[i]).0@)
                && held(roster)[entries[i].0@] == pokemon_views(entries[i].1@),
        forall|i: int, j: int|
            0 <= i < j < entries.len() ==> (#[trigger] entries[i]).0@ != (#[trigger] entries[j]).0@,
        forall|name: Seq<char>|
            held(roster).contains_key(name) ==> exists|i: int|
                0 <= i < entries.len() && (#[trigger] entries[i]).0@ == name,
{
    roster.parties.into_iter().collect()
}

impl Roster {
    /// A roster without trainers.
    pub fn new() -> (roster: Roster)
        ensures
            roster@ == Map::<Seq<char>, Seq<TrainerPokemonView>>::empty(),
    {
        fresh()
    }

    /// Gives `name` the party `party`, in place of one it had before.
    pub fn insert(&mut self, name: String, party: Vec<TrainerPokemon>)
        ensures
            final(self)@ == old(self)@.insert(name@, pokemon_views(party@)),
    {
        put(self, name, party)
    }

    /// The trainers with their parties, each trainer once, in no
    /// particular order.
    pub fn into_entries(self) -> (entries: Vec<(String, Vec<TrainerPokemon>)>)
        ensures
            forall|i: int|
                0 <= i < entries.len() ==> self@.contains_key((#[trigger] entries[i]).0@)
                    && self@[entries[i].0@] == pokemon_views(entries[i].1@),
            forall|i: int, j: int|
                0 <= i < j < entries.len() ==> (#[trigger] entries[i]).0@ != (
                #[trigger] entries[j]).0@,
            forall|name: Seq<char>|
                self@.contains_key(name) ==> exists|i: int|
                    0 <= i < entries.len() && (#[trigger] entries[i]).0@ == name,
    {
        drain(self)
    }

    /// The party of the trainer `name`, if the roster has that trainer.
    pub fn get(&self, name: &str) -> (party: Option<&Vec<TrainerPokemon>>)
        ensures
            match party {
                Some(p) => self@.contains_key(name@) && pokemon_views(p@) == self@[name@],
                None => !self@.contains_key(name@),
            },
    {
        lookup(self, name)
    }
}

} // verus!
