//! The read-only action repository: every action a battle participant may
//! take, keyed by identifiers assigned sequentially from zero.

use vstd::prelude::*;

verus! {

/// Identifier of an action in the repository. Identifiers are assigned
/// sequentially starting at zero and are never reused.
#[derive(Debug, Clone, Copy, PartialEq, Eq, Structural, Hash)]
pub struct ActionId(pub u32);

/// How an action selects its recipients.
#[derive(Debug, Clone, Copy, PartialEq, Eq, Structural)]
pub enum TargetType {
    /// The action needs no recipient.
    NoTarget,
    /// Any participant on either side may be targeted.
    Any { can_target_caster: bool },
    /// The action applies to the caster alone.
    Caster,
    /// Participants of the caster's own roster side.
    Friendly { can_target_caster: bool },
    /// Resolves to the caster's own side's roster, although the name
    /// suggests the opposing side: a deliberate quirk of the game rules.
    Enemy,
}

/// What an action does when it resolves.
#[derive(Debug, Clone, Copy, PartialEq, Eq, Structural)]
pub enum ActionResolution {
    NoEffect,
    Damage(u32),
    Heal(u32),
}

/// An immutable action definition.
#[derive(Debug, Clone)]
pub struct Action {
    pub name: String,
    pub target: TargetType,
    pub resolution: ActionResolution,
}

/// Read-only repository of actions. The action with identifier `i` sits at
/// index `i`; lookups by name scan linearly.
pub struct ActionRepo {
    actions: Vec<Action>,
}

impl View for ActionRepo {
    type V = Seq<Action>;

    closed spec fn view(&self) -> Seq<Action> {
        self.actions@
    }
}

impl ActionRepo {
    /// Builds the battle demo's fixed action set.
    pub fn new() -> (r: Self)
        ensures
            r@.len() == 5,
            r@[0].name@ == "Idle"@,
            r@[0].target == TargetType::NoTarget,
            r@[0].resolution == ActionResolution::NoEffect,
            r@[1].name@ == "Punch"@,
            r@[1].target == TargetType::Enemy,
            r@[1].resolution == ActionResolution::Damage(5),
            r@[2].name@ == "Block"@,
            r@[2].target == TargetType::Caster,
            r@[2].resolution == ActionResolution::Heal(5),
            r@[3].name@ == "Heal"@,
            r@[3].target == (TargetType::Any { can_target_caster: true }),
            r@[3].resolution == ActionResolution::Heal(5),
            r@[4].name@ == "Shield"@,
            r@[4].target == (TargetType::Friendly { can_target_caster: true }),
            r@[4].resolution == ActionResolution::Heal(5),
    {
        let mut repo = Self { actions: Vec::new() };

        repo.add_action(Action {
            name: "Idle".to_owned(),
            target: TargetType::NoTarget,
            resolution: ActionResolution::NoEffect,
        });

        repo.add_action(Action {
            name: "Punch".to_owned(),
            target: TargetType::Enemy,
            resolution: ActionResolution::Damage(5),
        });

        repo.add_action(Action {
            name: "Block".to_owned(),
            target: TargetType::Caster,
            resolution: ActionResolution::Heal(5),
        });

        repo.add_action(Action {
            name: "Heal".to_owned(),
            target: TargetType::Any { can_target_caster: true },
            resolution: ActionResolution::Heal(5),
        });

        repo.add_action(Action {
            name: "Shield".to_owned(),
            target: TargetType::Friendly { can_target_caster: true },
            resolution: ActionResolution::Heal(5),
        });

        repo
    }

    /// Appends an action; its identifier is the previous action count.
    pub fn add_action(&mut self, action: Action)
        ensures
            final(self)@ == old(self)@.push(action),
    {
        self.actions.push(action);
    }

    /// Finds the first action bearing `name`, if any.
    pub fn find_action_name(&self, name: &str) -> (r: Option<ActionId>)
        requires
            self@.len() <= u32::MAX,
        ensures
            match r {
                Some(id) => {
                    &&& id.0 < self@.len()
                    &&& self@[id.0 as int].name@ == name@
                    &&& forall|j: int| 0 <= j < id.0 ==> self@[j].name@ != name@
                },
                None => forall|j: int| 0 <= j < self@.len() ==> self@[j].name@ != name@,
            },
    {
        let target: String = name.to_owned();
        let mut i: usize = 0;
        while i < self.actions.len()
            invariant
                i <= self.actions.len(),
                self.actions.len() <= u32::MAX,
                target@ == name@,
                forall|j: int| 0 <= j < i ==> self@[j].name@ != name@,
            decreases self.actions.len() - i,
        {
            if self.actions[i].name == target {
                return Some(ActionId(i as u32));
            }
            i += 1;
        }
        None
    }

    /// Looks an action up by identifier.
    pub fn get_action(&self, id: &ActionId) -> (r: Option<&Action>)
        ensures
            match r {
                Some(a) => id.0 < self@.len() && *a == self@[id.0 as int],
                None => id.0 >= self@.len(),
            },
    {
        if (id.0 as usize) < self.actions.len() {
            Some(&self.actions[id.0 as usize])
        } else {
            None
        }
    }

    /// The number of actions registered so far.
    pub fn len(&self) -> (r: usize)
        ensures
            r == self@.len(),
    {
        self.actions.len()
    }
}

} // verus!
