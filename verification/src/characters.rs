//! Battle participants and their storage.
//!
//! Characters are created once at scene start and stay alive for the whole
//! battle. The storage assigns identifiers sequentially and validates at
//! spawn time the invariant the rest of the battle relies on: every
//! character's action list is non-empty and names only registered actions.

use vstd::prelude::*;

use crate::actions::{ActionId, ActionRepo};

verus! {

/// Identifier of a spawned character; an index into the storage.
#[derive(Debug, Clone, Copy, PartialEq, Eq, Structural, Hash)]
pub struct CharacterId(pub u32);

/// The stat block of a character. Speed weighs the turn-order draw.
#[derive(Debug, Clone, Copy, PartialEq, Eq, Structural)]
pub struct CharacterStats {
    pub speed: u32,
}

/// A battle participant.
#[derive(Debug, Clone)]
pub struct Character {
    pub name: String,
    pub player_controlled: bool,
    pub stats: CharacterStats,
    pub actions: Vec<ActionId>,
    /// Derived visual flag: whether the sprite currently faces the camera.
    pub front_facing: bool,
}

/// Marker component for static scene decoration.
#[derive(Debug, Clone, Copy)]
pub struct Scenery;

/// Why a character could not be spawned.
#[derive(Debug, Clone, Copy, PartialEq, Eq, Structural)]
pub enum SpawnError {
    /// The character was given no actions; it could never take a turn.
    NoActions,
    /// An action identifier does not resolve in the repository.
    UnknownAction,
}

/// Owns every spawned character, keyed by sequentially assigned identifiers.
pub struct CharacterStorage {
    characters: Vec<Character>,
}

impl View for CharacterStorage {
    type V = Seq<Character>;

    closed spec fn view(&self) -> Seq<Character> {
        self.characters@
    }
}

impl CharacterStorage {
    /// A character identifier resolves in this storage.
    pub open spec fn spec_contains(&self, id: CharacterId) -> bool {
        id.0 < self@.len()
    }

    /// The character behind a valid identifier.
    pub open spec fn spec_character(&self, id: CharacterId) -> Character {
        self@[id.0 as int]
    }

    /// Every stored character has at least one action and every action
    /// identifier stays within `action_count`. Spawning enforces this, so a
    /// storage built only through [`CharacterStorage::spawn`] satisfies it
    /// for the repository the characters were spawned against.
    pub open spec fn wf(&self, action_count: nat) -> bool {
        forall|i: int|
            0 <= i < self@.len() ==> {
                &&& self@[i].actions@.len() > 0
                &&& forall|j: int|
                    0 <= j < self@[i].actions@.len() ==> (#[trigger] self@[i].actions@[j]).0
                        < action_count
            }
    }

    pub fn new() -> (r: Self)
        ensures
            r@.len() == 0,
    {
        Self { characters: Vec::new() }
    }

    /// Spawns a character. Fails if the action list is empty or names an
    /// action the repository does not know: a character that could never
    /// act is a configuration error reported here, not during a turn.
    pub fn spawn(
        &mut self,
        repo: &ActionRepo,
        name: String,
        player_controlled: bool,
        speed: u32,
        actions: Vec<ActionId>,
    ) -> (r: Result<CharacterId, SpawnError>)
        requires
            old(self)@.len() < u32::MAX,
        ensures
            match r {
                Ok(id) => {
                    &&& actions@.len() > 0
                    &&& forall|j: int|
                        0 <= j < actions@.len() ==> (#[trigger] actions@[j]).0 < repo@.len()
                    &&& id.0 == old(self)@.len()
                    &&& final(self)@ == old(self)@.push(
                        (Character {
                            name,
                            player_controlled,
                            stats: CharacterStats { speed },
                            actions,
                            front_facing: true,
                        }),
                    )
                },
                Err(SpawnError::NoActions) => actions@.len() == 0 && final(self)@ == old(self)@,
                Err(SpawnError::UnknownAction) => {
                    &&& actions@.len() > 0
                    &&& exists|j: int|
                        0 <= j < actions@.len() && (#[trigger] actions@[j]).0 >= repo@.len()
                    &&& final(self)@ == old(self)@
                },
            },
    {
        if actions.len() == 0 {
            return Err(SpawnError::NoActions);
        }

        let mut j: usize = 0;
        while j < actions.len()
            invariant
                j <= actions.len(),
                forall|k: int| 0 <= k < j ==> (#[trigger] actions@[k]).0 < repo@.len(),
            decreases actions.len() - j,
        {
            if repo.get_action(&actions[j]).is_none() {
                return Err(SpawnError::UnknownAction);
            }
            j += 1;
        }

        let id = CharacterId(self.characters.len() as u32);
        self.characters.push(Character {
            name,
            player_controlled,
            stats: CharacterStats { speed },
            actions,
            front_facing: true,
        });
        Ok(id)
    }

    /// Looks a character up by identifier.
    pub fn character(&self, id: CharacterId) -> (r: Option<&Character>)
        ensures
            match r {
                Some(c) => self.spec_contains(id) && *c == self.spec_character(id),
                None => !self.spec_contains(id),
            },
    {
        if (id.0 as usize) < self.characters.len() {
            Some(&self.characters[id.0 as usize])
        } else {
            None
        }
    }

    /// The number of spawned characters.
    pub fn len(&self) -> (r: usize)
        ensures
            r == self@.len(),
    {
        self.characters.len()
    }

    /// Runtime check of [`CharacterStorage::wf`], for callers outside
    /// verified code that must establish it before driving a battle.
    pub fn is_wf(&self, action_count: usize) -> (r: bool)
        ensures
            r == self.wf(action_count as nat),
    {
        let mut i: usize = 0;
        while i < self.characters.len()
            invariant
                i <= self.characters.len(),
                forall|k: int|
                    0 <= k < i ==> {
                        &&& self@[k].actions@.len() > 0
                        &&& forall|j: int|
                            0 <= j < self@[k].actions@.len() ==> (#[trigger] self@[k].actions@[j]).0
                                < action_count
                    },
            decreases self.characters.len() - i,
        {
            if self.characters[i].actions.len() == 0 {
                proof {
                    let bad = i as int;
                    assert(self@[bad].actions@.len() == 0);
                    assert(!self.wf(action_count as nat));
                }
                return false;
            }
            let mut j: usize = 0;
            while j < self.characters[i].actions.len()
                invariant
                    i < self.characters.len(),
                    j <= self@[i as int].actions@.len(),
                    forall|k: int|
                        0 <= k < j ==> (#[trigger] self@[i as int].actions@[k]).0 < action_count,
                decreases self@[i as int].actions@.len() - j,
            {
                if self.characters[i].actions[j].0 as usize >= action_count {
                    proof {
                        let bad = i as int;
                        assert(self@[bad].actions@[j as int].0 >= action_count);
                        assert(!self.wf(action_count as nat));
                    }
                    return false;
                }
                j += 1;
            }
            i += 1;
        }
        true
    }
}

} // verus!
