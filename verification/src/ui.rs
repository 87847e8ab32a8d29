//! The dynamic per-turn menu system: a store of 3D menu panels and the
//! action/target selection flow driven by edge-triggered input.
//!
//! Panels live in a [`MenuWorld`], the library's view of the entity store:
//! spawning yields a fresh identifier, despawning a missing identifier is a
//! benign no-op, and identifiers are never reused. Panel placement and
//! billboarding are presentation concerns handled outside, from the panel
//! transforms; the flow here decides which panels exist, what they list and
//! what is selected.

use vstd::prelude::*;

use crate::actions::{ActionRepo, TargetType};
use crate::battle::{contains_id, Characters};
use crate::characters::{CharacterId, CharacterStorage};
use crate::keymap::{assoc_map, keys_unique, lemma_assoc_map_at, lemma_assoc_map_dom,
    lemma_assoc_map_push, lemma_assoc_map_remove, lemma_assoc_map_update};

verus! {

broadcast use vstd::map::group_map_axioms;

/// A billboarded menu panel: its option lines and the selected index.
///
/// The selected index is always clamped to the option range, and a panel
/// never lists zero options.
#[derive(Debug, Clone)]
pub struct Ui3d {
    pub options: Vec<String>,
    pub selected: usize,
}

/// A panel is never empty and its selection stays in range.
pub open spec fn panel_ok(p: Ui3d) -> bool {
    &&& p.options@.len() > 0
    &&& p.selected < p.options@.len()
}

/// The library's stand-in for the entity store, restricted to menu panels.
/// Identifiers are handed out sequentially and never reused.
pub struct MenuWorld {
    next_id: u64,
    panels: Vec<(u64, Ui3d)>,
}

impl View for MenuWorld {
    type V = Map<u64, Ui3d>;

    closed spec fn view(&self) -> Map<u64, Ui3d> {
        assoc_map(self.panels@)
    }
}

impl MenuWorld {
    pub closed spec fn spec_next_id(&self) -> u64 {
        self.next_id
    }

    /// Identifiers are unique and below the id counter, and every stored
    /// panel is non-empty with an in-range selection.
    pub closed spec fn wf(&self) -> bool {
        &&& keys_unique(self.panels@)
        &&& forall|i: int|
            0 <= i < self.panels@.len() ==> (#[trigger] self.panels@[i]).0 < self.next_id
        &&& forall|i: int| 0 <= i < self.panels@.len() ==> panel_ok((#[trigger] self.panels@[i]).1)
    }

    /// Every panel in a well-formed world is non-empty with an in-range
    /// selection.
    pub proof fn lemma_wf_panels(&self)
        requires
            self.wf(),
        ensures
            forall|k: u64| #[trigger] self@.dom().contains(k) ==> panel_ok(self@[k]),
    {
        lemma_assoc_map_dom(self.panels@);
        assert forall|k: u64| #[trigger] self@.dom().contains(k) implies panel_ok(self@[k]) by {
            let i = choose|i: int| 0 <= i < self.panels@.len() && (#[trigger] self.panels@[i]).0 == k;
            lemma_assoc_map_at(self.panels@, i);
        }
    }

    /// Every live identifier is below the id counter, so fresh identifiers
    /// never collide with past ones.
    pub proof fn lemma_wf_key_bound(&self)
        requires
            self.wf(),
        ensures
            forall|k: u64| #[trigger] self@.dom().contains(k) ==> k < self.spec_next_id(),
    {
        lemma_assoc_map_dom(self.panels@);
        assert forall|k: u64| #[trigger] self@.dom().contains(k) implies k < self.spec_next_id() by {
            let i = choose|i: int| 0 <= i < self.panels@.len() && (#[trigger] self.panels@[i]).0 == k;
            assert(self.panels@[i].0 < self.next_id);
        }
    }

    pub fn new() -> (r: Self)
        ensures
            r.wf(),
            r@ == Map::<u64, Ui3d>::empty(),
            r.spec_next_id() == 0,
    {
        Self { next_id: 0, panels: Vec::new() }
    }

    /// Spawns a panel under a fresh identifier.
    pub fn spawn(&mut self, panel: Ui3d) -> (id: u64)
        requires
            old(self).wf(),
            old(self).spec_next_id() < u64::MAX,
            panel_ok(panel),
        ensures
            final(self).wf(),
            !old(self)@.dom().contains(id),
            final(self)@ == old(self)@.insert(id, panel),
            id == old(self).spec_next_id(),
            final(self).spec_next_id() == old(self).spec_next_id() + 1,
    {
        let id = self.next_id;
        proof {
            lemma_assoc_map_dom(self.panels@);
            lemma_assoc_map_push(self.panels@, id, panel);
        }
        self.panels.push((id, panel));
        self.next_id = self.next_id + 1;
        id
    }

    /// Removes a panel. A dangling identifier is a benign no-op.
    #[verifier::loop_isolation(false)]
    pub fn despawn(&mut self, id: u64)
        requires
            old(self).wf(),
        ensures
            final(self).wf(),
            final(self)@ == old(self)@.remove(id),
            final(self).spec_next_id() == old(self).spec_next_id(),
    {
        let mut i: usize = 0;
        while i < self.panels.len()
            invariant
                i <= self.panels@.len(),
                self.panels@ == old(self).panels@,
                self.next_id == old(self).next_id,
                forall|j: int| 0 <= j < i ==> (#[trigger] self.panels@[j]).0 != id,
            decreases self.panels@.len() - i,
        {
            if self.panels[i].0 == id {
                proof {
                    lemma_assoc_map_remove(self.panels@, i as int);
                }
                self.panels.remove(i);
                return ;
            }
            i += 1;
        }
        proof {
            lemma_assoc_map_dom(self.panels@);
            assert(!self@.dom().contains(id));
            assert(self@ =~= self@.remove(id));
        }
    }

    /// Whether a panel identifier is live.
    #[verifier::loop_isolation(false)]
    pub fn contains(&self, id: u64) -> (r: bool)
        requires
            self.wf(),
        ensures
            r == self@.dom().contains(id),
    {
        proof {
            lemma_assoc_map_dom(self.panels@);
        }
        let mut i: usize = 0;
        while i < self.panels.len()
            invariant
                i <= self.panels@.len(),
                forall|j: int| 0 <= j < i ==> (#[trigger] self.panels@[j]).0 != id,
            decreases self.panels@.len() - i,
        {
            if self.panels[i].0 == id {
                assert(self.panels@[i as int].0 == id);
                return true;
            }
            i += 1;
        }
        false
    }

    /// Reads a panel.
    #[verifier::loop_isolation(false)]
    pub fn get(&self, id: u64) -> (r: Option<&Ui3d>)
        requires
            self.wf(),
        ensures
            match r {
                Some(p) => self@.dom().contains(id) && *p == self@[id],
                None => !self@.dom().contains(id),
            },
    {
        proof {
            lemma_assoc_map_dom(self.panels@);
        }
        let mut i: usize = 0;
        while i < self.panels.len()
            invariant
                i <= self.panels@.len(),
                forall|j: int| 0 <= j < i ==> (#[trigger] self.panels@[j]).0 != id,
            decreases self.panels@.len() - i,
        {
            if self.panels[i].0 == id {
                proof {
                    lemma_assoc_map_at(self.panels@, i as int);
                }
                return Some(&self.panels[i].1);
            }
            i += 1;
        }
        None
    }

    /// Moves a panel's selection one step and clamps it to the option range.
    #[verifier::loop_isolation(false)]
    pub fn step_selection(&mut self, id: u64, up: bool, down: bool)
        requires
            old(self).wf(),
            old(self)@.dom().contains(id),
        ensures
            final(self).wf(),
            final(self)@ == old(self)@.insert(
                id,
                (Ui3d {
                    options: old(self)@[id].options,
                    selected: next_selection(
                        old(self)@[id].selected as int,
                        old(self)@[id].options@.len() as int,
                        up,
                        down,
                    ) as usize,
                }),
            ),
            final(self).spec_next_id() == old(self).spec_next_id(),
    {
        proof {
            lemma_assoc_map_dom(self.panels@);
        }
        let mut i: usize = 0;
        while i < self.panels.len()
            invariant
                i <= self.panels@.len(),
                self.panels@ == old(self).panels@,
                self.next_id == old(self).next_id,
                forall|j: int| 0 <= j < i ==> (#[trigger] self.panels@[j]).0 != id,
                exists|j: int| 0 <= j < self.panels@.len() && (#[trigger] self.panels@[j]).0 == id,
            decreases self.panels@.len() - i,
        {
            if self.panels[i].0 == id {
                proof {
                    lemma_assoc_map_at(self.panels@, i as int);
                }
                let n = self.panels[i].1.options.len();
                let sel = self.panels[i].1.selected;
                let new_sel: usize = if down && !up {
                    if sel + 1 < n {
                        sel + 1
                    } else {
                        n - 1
                    }
                } else if up && !down {
                    if sel > 0 {
                        sel - 1
                    } else {
                        0
                    }
                } else {
                    sel
                };
                let ghost before = self.panels@;
                let p: &mut Ui3d = &mut self.panels[i].1;
                p.selected = new_sel;
                proof {
                    assert(self.panels@ =~= before.update(
                        i as int,
                        (before[i as int].0, self.panels@[i as int].1),
                    ));
                    lemma_assoc_map_update(before, i as int, self.panels@[i as int].1);
                }
                return ;
            }
            i += 1;
        }
        proof {
            assert(false);
        }
    }
}

/// One selection step: up and down move by one, clamped to `[0, n)`; a tied
/// or absent direction leaves the selection alone.
pub open spec fn next_selection(sel: int, n: int, up: bool, down: bool) -> int {
    if down && !up {
        if sel + 1 < n {
            sel + 1
        } else {
            n - 1
        }
    } else if up && !down {
        if sel > 0 {
            sel - 1
        } else {
            0
        }
    } else {
        sel
    }
}

/// Selection stepping clamps: walking past either end leaves the selection
/// pinned at that end, and a selection in range stays in range.
pub proof fn lemma_selection_clamps(n: int, up: bool, down: bool)
    requires
        n > 0,
    ensures
        next_selection(n - 1, n, false, true) == n - 1,
        next_selection(0, n, true, false) == 0,
        forall|sel: int| 0 <= sel < n ==> 0 <= #[trigger] next_selection(sel, n, up, down) < n,
{
}

/// One frame's newly pressed logical menu keys.
#[derive(Debug, Clone, Copy)]
pub struct MenuInput {
    pub up: bool,
    pub down: bool,
    pub select: bool,
    pub forward: bool,
    pub back: bool,
}

/// The logical action a frame of input produces, if any. Confirm wins over
/// forward, forward over back.
#[derive(Debug, Clone, Copy, PartialEq, Eq, Structural)]
pub enum UiMenuAction {
    Back,
    Forward,
    Select,
}

/// What the menu flow reports to the battle state machine each frame.
#[derive(Debug, Clone, Copy, PartialEq, Eq, Structural)]
pub enum UiMenuOutput {
    /// No decision yet; keep waiting for input.
    Pending,
    /// The turn is resolved; the menus may be torn down.
    SkipTurn,
}

/// The logical action of one input frame.
pub open spec fn spec_menu_action(input: MenuInput) -> Option<UiMenuAction> {
    if input.select {
        Some(UiMenuAction::Select)
    } else if input.forward {
        Some(UiMenuAction::Forward)
    } else if input.back {
        Some(UiMenuAction::Back)
    } else {
        None
    }
}

/// Steps the panel's selection by this frame's direction and maps the frame
/// to its logical menu action.
fn process_input(world: &mut MenuWorld, target: u64, input: &MenuInput) -> (r: Option<
    UiMenuAction,
>)
    requires
        old(world).wf(),
        old(world)@.dom().contains(target),
    ensures
        final(world).wf(),
        final(world)@ == old(world)@.insert(
            target,
            (Ui3d {
                options: old(world)@[target].options,
                selected: next_selection(
                    old(world)@[target].selected as int,
                    old(world)@[target].options@.len() as int,
                    input.up,
                    input.down,
                ) as usize,
            }),
        ),
        final(world)@.dom() == old(world)@.dom(),
        final(world).spec_next_id() == old(world).spec_next_id(),
        r == spec_menu_action(*input),
{
    world.step_selection(target, input.up, input.down);
    proof {
        assert(final(world)@.dom() =~= old(world)@.dom());
    }
    if input.select {
        Some(UiMenuAction::Select)
    } else if input.forward {
        Some(UiMenuAction::Forward)
    } else if input.back {
        Some(UiMenuAction::Back)
    } else {
        None
    }
}

/// The predicate that excludes the caster from a target list.
pub open spec fn not_caster(caster: CharacterId) -> spec_fn(CharacterId) -> bool {
    |id: CharacterId| id != caster
}

/// The participants an action may target, by policy and caster allegiance,
/// in roster order. The `Enemy` policy resolves to the caster's own side's
/// roster, although the name suggests the opposing side: a deliberate quirk
/// of the game rules.
pub open spec fn spec_eligible(
    policy: TargetType,
    caster: CharacterId,
    caster_friendly: bool,
    fr: Seq<CharacterId>,
    en: Seq<CharacterId>,
) -> Seq<CharacterId> {
    match policy {
        TargetType::Any { can_target_caster } => if can_target_caster {
            fr + en
        } else {
            (fr + en).filter(not_caster(caster))
        },
        TargetType::Friendly { can_target_caster } => {
            let own = if caster_friendly {
                fr
            } else {
                en
            };
            if can_target_caster {
                own
            } else {
                own.filter(not_caster(caster))
            }
        },
        TargetType::Enemy => if caster_friendly {
            fr
        } else {
            en
        },
        TargetType::NoTarget => Seq::empty(),
        TargetType::Caster => Seq::empty(),
    }
}

/// Whatever a filter keeps was in the sequence.
proof fn lemma_filter_subset<A>(s: Seq<A>, pred: spec_fn(A) -> bool)
    ensures
        forall|i: int|
            0 <= i < s.filter(pred).len() ==> s.contains(#[trigger] s.filter(pred)[i]),
    decreases s.len(),
{
    reveal(Seq::filter);
    if s.len() > 0 {
        let d = s.drop_last();
        lemma_filter_subset(d, pred);
        assert forall|i: int|
            0 <= i < s.filter(pred).len() implies s.contains(#[trigger] s.filter(pred)[i]) by {
            if i < d.filter(pred).len() {
                assert(s.filter(pred)[i] == d.filter(pred)[i]);
                let j = choose|j: int| 0 <= j < d.len() && d[j] == d.filter(pred)[i];
                assert(s[j] == s.filter(pred)[i]);
            } else {
                assert(s.filter(pred)[i] == s.last());
                assert(s[s.len() - 1] == s.last());
            }
        }
    }
}

fn append_ids(dst: &mut Vec<CharacterId>, src: &Vec<CharacterId>)
    ensures
        final(dst)@ == old(dst)@ + src@,
{
    let ghost base = dst@;
    proof {
        assert(base + src@.take(0) =~= base);
    }
    let mut i: usize = 0;
    while i < src.len()
        invariant
            i <= src@.len(),
            dst@ == base + src@.take(i as int),
        decreases src@.len() - i,
    {
        dst.push(src[i]);
        proof {
            assert(base + src@.take(i + 1) =~= (base + src@.take(i as int)).push(src@[i as int]));
        }
        i += 1;
    }
    proof {
        assert(src@.take(src@.len() as int) =~= src@);
    }
}

fn filter_out_caster(src: &Vec<CharacterId>, caster: CharacterId) -> (r: Vec<CharacterId>)
    ensures
        r@ == src@.filter(not_caster(caster)),
{
    let mut out: Vec<CharacterId> = Vec::new();
    proof {
        reveal(Seq::filter);
        assert(out@ =~= src@.take(0).filter(not_caster(caster)));
    }
    let mut i: usize = 0;
    while i < src.len()
        invariant
            i <= src@.len(),
            out@ == src@.take(i as int).filter(not_caster(caster)),
        decreases src@.len() - i,
    {
        let keep = src[i].0 != caster.0;
        proof {
            reveal(Seq::filter);
            assert(src@.take(i + 1).drop_last() =~= src@.take(i as int));
            assert(src@.take(i + 1).last() == src@[i as int]);
            assert(src@[i as int] != caster <==> keep);
            assert(not_caster(caster)(src@[i as int]) <==> keep);
        }
        if keep {
            out.push(src[i]);
        }
        i += 1;
    }
    proof {
        assert(src@.take(src@.len() as int) =~= src@);
    }
    out
}

fn copy_ids(src: &Vec<CharacterId>) -> (r: Vec<CharacterId>)
    ensures
        r@ == src@,
{
    let mut out: Vec<CharacterId> = Vec::new();
    append_ids(&mut out, src);
    proof {
        assert(out@ =~= src@);
    }
    out
}

/// Computes the eligible target set for an action, in roster order.
pub fn eligible_targets(
    policy: TargetType,
    caster: CharacterId,
    caster_friendly: bool,
    friendly: &Vec<CharacterId>,
    enemy: &Vec<CharacterId>,
) -> (r: Vec<CharacterId>)
    ensures
        r@ == spec_eligible(policy, caster, caster_friendly, friendly@, enemy@),
{
    match policy {
        TargetType::Any { can_target_caster } => {
            let mut base: Vec<CharacterId> = Vec::new();
            append_ids(&mut base, friendly);
            append_ids(&mut base, enemy);
            proof {
                assert(base@ =~= friendly@ + enemy@);
            }
            if can_target_caster {
                base
            } else {
                filter_out_caster(&base, caster)
            }
        },
        TargetType::Friendly { can_target_caster } => {
            let own = if caster_friendly {
                copy_ids(friendly)
            } else {
                copy_ids(enemy)
            };
            if can_target_caster {
                own
            } else {
                filter_out_caster(&own, caster)
            }
        },
        TargetType::Enemy => if caster_friendly {
            copy_ids(friendly)
        } else {
            copy_ids(enemy)
        },
        TargetType::NoTarget => {
            let v: Vec<CharacterId> = Vec::new();
            proof {
                assert(v@ =~= Seq::<CharacterId>::empty());
            }
            v
        },
        TargetType::Caster => {
            let v: Vec<CharacterId> = Vec::new();
            proof {
                assert(v@ =~= Seq::<CharacterId>::empty());
            }
            v
        },
    }
}

/// The character views of a list of option strings.
pub open spec fn strs_of(s: Seq<String>) -> Seq<Seq<char>> {
    s.map_values(|x: String| x@)
}

/// The display names of a character's permitted actions, in action order.
pub open spec fn spec_action_names(repo: ActionRepo, c: crate::characters::Character) -> Seq<
    Seq<char>,
> {
    c.actions@.map_values(|a: crate::actions::ActionId| repo@[a.0 as int].name@)
}

/// The display names of a list of participants, in list order.
pub open spec fn spec_names_of(storage: CharacterStorage, ids: Seq<CharacterId>) -> Seq<Seq<char>> {
    ids.map_values(|id: CharacterId| storage@[id.0 as int].name@)
}

/// Whether an action's policy requires picking a target.
pub open spec fn needs_target(t: TargetType) -> bool {
    match t {
        TargetType::NoTarget => false,
        TargetType::Caster => false,
        _ => true,
    }
}

/// Whether an input frame confirms the current selection.
pub open spec fn is_confirm(a: Option<UiMenuAction>) -> bool {
    a == Some(UiMenuAction::Select) || a == Some(UiMenuAction::Forward)
}

/// The per-turn menu pair: the root action menu and, once an action needing
/// a target is committed, a child target menu.
pub struct UiMenus {
    action_menu: u64,
    target_menu: Option<u64>,
    current_character: CharacterId,
}

impl UiMenus {
    pub closed spec fn spec_action_menu(&self) -> u64 {
        self.action_menu
    }

    pub closed spec fn spec_target_menu(&self) -> Option<u64> {
        self.target_menu
    }

    pub closed spec fn spec_current(&self) -> CharacterId {
        self.current_character
    }

    /// Both menu panels are live, distinct, and the action menu lists one
    /// option per permitted action of the acting character.
    pub open spec fn wf(&self, world: MenuWorld, storage: CharacterStorage) -> bool {
        &&& world@.dom().contains(self.spec_action_menu())
        &&& storage.spec_contains(self.spec_current())
        &&& world@[self.spec_action_menu()].options@.len() == storage.spec_character(
            self.spec_current(),
        ).actions@.len()
        &&& match self.spec_target_menu() {
            Some(t) => world@.dom().contains(t) && t != self.spec_action_menu(),
            None => true,
        }
    }

    /// The action the post-step selection resolves to, by its target policy.
    pub open spec fn spec_resolved_target(
        &self,
        world: MenuWorld,
        storage: CharacterStorage,
        repo: ActionRepo,
        input: MenuInput,
    ) -> TargetType {
        let panel = world@[self.spec_action_menu()];
        let sel = next_selection(
            panel.selected as int,
            panel.options@.len() as int,
            input.up,
            input.down,
        );
        let c = storage.spec_character(self.spec_current());
        repo@[c.actions@[sel].0 as int].target
    }

    /// The action menu identifier, for callers reconciling panels with
    /// outside resources.
    pub fn action_menu(&self) -> (r: u64)
        ensures
            r == self.spec_action_menu(),
    {
        self.action_menu
    }

    /// The target menu identifier, if one is spawned.
    pub fn target_menu(&self) -> (r: Option<u64>)
        ensures
            r == self.spec_target_menu(),
    {
        self.target_menu
    }

    /// The acting character.
    pub fn current_character(&self) -> (r: CharacterId)
        ensures
            r == self.spec_current(),
    {
        self.current_character
    }

    /// Opens the action menu for one character's turn: one option per
    /// permitted action, resolved to its display name. Fails exactly when
    /// the character has no actions, leaving the world untouched.
    pub fn new(
        world: &mut MenuWorld,
        actions: &ActionRepo,
        storage: &CharacterStorage,
        current_character: CharacterId,
    ) -> (r: Result<UiMenus, ()>)
        requires
            old(world).wf(),
            old(world).spec_next_id() < u64::MAX,
            storage.spec_contains(current_character),
            storage.wf(actions@.len() as nat),
        ensures
            final(world).wf(),
            match r {
                Ok(m) => {
                    &&& m.spec_current() == current_character
                    &&& m.spec_target_menu() is None
                    &&& !old(world)@.dom().contains(m.spec_action_menu())
                    &&& final(world)@.dom() == old(world)@.dom().insert(m.spec_action_menu())
                    &&& forall|k: u64|
                        k != m.spec_action_menu() && old(world)@.dom().contains(k) ==> final(world)@[k] == old(world)@[k]
                    &&& strs_of(final(world)@[m.spec_action_menu()].options@) == spec_action_names(
                        *actions,
                        storage.spec_character(current_character),
                    )
                    &&& final(world)@[m.spec_action_menu()].selected == 0
                    &&& m.wf(*final(world), *storage)
                    &&& m.spec_action_menu() == old(world).spec_next_id()
                    &&& final(world).spec_next_id() == old(world).spec_next_id() + 1
                },
                Err(_) => {
                    &&& storage.spec_character(current_character).actions@.len() == 0
                    &&& final(world)@ == old(world)@
                    &&& final(world).spec_next_id() == old(world).spec_next_id()
                },
            },
    {
        let character = match storage.character(current_character) {
            Some(c) => c,
            None => {
                proof {
                    assert(false);
                }
                return Err(());
            },
        };

        let mut options: Vec<String> = Vec::new();
        let mut j: usize = 0;
        while j < character.actions.len()
            invariant
                j <= character.actions@.len(),
                options@.len() == j,
                *character == storage.spec_character(current_character),
                storage.spec_contains(current_character),
                storage.wf(actions@.len() as nat),
                forall|k: int|
                    0 <= k < j ==> (#[trigger] options@[k])@ == actions@[character.actions@[
                        k].0 as int].name@,
            decreases character.actions@.len() - j,
        {
            let aid = character.actions[j];
            proof {
                assert(storage@[current_character.0 as int].actions@[j as int].0
                    < actions@.len());
            }
            match actions.get_action(&aid) {
                Some(a) => options.push(a.name.clone()),
                None => {
                    proof {
                        assert(false);
                    }
                    return Err(());
                },
            }
            j += 1;
        }

        if options.len() == 0 {
            return Err(());
        }

        let panel = Ui3d { options, selected: 0 };
        let id = world.spawn(panel);
        proof {
            assert(world@.dom() =~= old(world)@.dom().insert(id));
            let m_opts = world@[id].options@;
            assert(strs_of(m_opts) =~= spec_action_names(
                *actions,
                storage.spec_character(current_character),
            ));
        }
        Ok(UiMenus { action_menu: id, target_menu: None, current_character })
    }

    /// Tears both menu panels down together; a turn never leaves one behind.
    pub fn drop_menus(&self, world: &mut MenuWorld)
        requires
            old(world).wf(),
        ensures
            final(world).wf(),
            !final(world)@.dom().contains(self.spec_action_menu()),
            match self.spec_target_menu() {
                Some(t) => !final(world)@.dom().contains(t) && final(world)@ == old(world)@.remove(self.spec_action_menu()).remove(t),
                None => final(world)@ == old(world)@.remove(self.spec_action_menu()),
            },
            final(world).spec_next_id() == old(world).spec_next_id(),
    {
        world.despawn(self.action_menu);
        if let Some(t) = self.target_menu {
            world.despawn(t);
        }
    }

    /// Opens the child target menu for a committed action: one option per
    /// eligible participant, resolved to its display name. Fails exactly
    /// when the eligible set is empty, leaving everything untouched.
    pub fn spawn_target_menu(
        &mut self,
        world: &mut MenuWorld,
        characters: &Characters,
        storage: &CharacterStorage,
        action: &crate::actions::Action,
    ) -> (r: Result<(), ()>)
        requires
            old(world).wf(),
            old(world).spec_next_id() < u64::MAX,
            old(self).wf(*old(world), *storage),
            old(self).spec_target_menu() is None,
            characters.wf(),
            characters.resolves_in(storage),
            needs_target(action.target),
        ensures
            final(world).wf(),
            final(self).spec_action_menu() == old(self).spec_action_menu(),
            final(self).spec_current() == old(self).spec_current(),
            ({
                let elig = spec_eligible(
                    action.target,
                    old(self).spec_current(),
                    characters.spec_friendly().contains(old(self).spec_current()),
                    characters.spec_friendly(),
                    characters.spec_enemy(),
                );
                match r {
                    Ok(_) => {
                        &&& elig.len() > 0
                        &&& match final(self).spec_target_menu() {
                            Some(t) => {
                                &&& !old(world)@.dom().contains(t)
                                &&& final(world)@.dom() == old(world)@.dom().insert(t)
                                &&& forall|k: u64|
                                    k != t && old(world)@.dom().contains(k) ==> final(world)@[k]
                                        == old(world)@[k]
                                &&& strs_of(final(world)@[t].options@) == spec_names_of(
                                    *storage,
                                    elig,
                                )
                                &&& final(world)@[t].selected == 0
                                &&& final(self).wf(*final(world), *storage)
                                &&& final(world).spec_next_id() == old(world).spec_next_id() + 1
                            },
                            None => false,
                        }
                    },
                    Err(_) => {
                        &&& elig.len() == 0
                        &&& final(world)@ == old(world)@
                        &&& *final(self) == *old(self)
                        &&& final(world).spec_next_id() == old(world).spec_next_id()
                    },
                }
            }),
    {
        let caster = self.current_character;
        let caster_friendly = contains_id(characters.friendly(), caster);
        let elig = eligible_targets(
            action.target,
            caster,
            caster_friendly,
            characters.friendly(),
            characters.enemy(),
        );

        if elig.len() == 0 {
            return Err(());
        }

        proof {
            lemma_eligible_resolve(
                action.target,
                caster,
                caster_friendly,
                characters.spec_friendly(),
                characters.spec_enemy(),
                storage,
            );
        }

        let mut options: Vec<String> = Vec::new();
        let mut j: usize = 0;
        while j < elig.len()
            invariant
                j <= elig@.len(),
                options@.len() == j,
                forall|k: int|
                    0 <= k < elig@.len() ==> (#[trigger] elig@[k]).0 < storage@.len(),
                forall|k: int|
                    0 <= k < j ==> (#[trigger] options@[k])@ == storage@[elig@[k].0 as int].name@,
            decreases elig@.len() - j,
        {
            match storage.character(elig[j]) {
                Some(c) => options.push(c.name.clone()),
                None => {
                    proof {
                        assert(false);
                    }
                    return Err(());
                },
            }
            j += 1;
        }

        let panel = Ui3d { options, selected: 0 };
        let id = world.spawn(panel);
        self.target_menu = Some(id);
        proof {
            assert(world@.dom() =~= old(world)@.dom().insert(id));
            let got = world@[id].options@;
            assert(strs_of(got) =~= spec_names_of(
                *storage,
                spec_eligible(
                    action.target,
                    caster,
                    caster_friendly,
                    characters.spec_friendly(),
                    characters.spec_enemy(),
                ),
            ));
        }
        Ok(())
    }

    /// One frame of the per-turn menu flow.
    ///
    /// With a target menu open, confirm resolves the turn, back closes the
    /// target menu, anything else waits. With only the action menu open,
    /// confirm resolves the selected action: policies needing no target end
    /// the turn at once, never spawning a target menu; the rest spawn the
    /// target menu, unless the eligible set is empty, which silently keeps
    /// waiting. Direction keys step the focused menu's selection, clamped.
    pub fn tick(
        &mut self,
        world: &mut MenuWorld,
        input: &MenuInput,
        repo: &ActionRepo,
        storage: &CharacterStorage,
        characters: &Characters,
    ) -> (out: UiMenuOutput)
        requires
            old(world).wf(),
            old(world).spec_next_id() < u64::MAX,
            old(self).wf(*old(world), *storage),
            storage.wf(repo@.len() as nat),
            characters.wf(),
            characters.resolves_in(storage),
        ensures
            final(world).wf(),
            final(self).spec_action_menu() == old(self).spec_action_menu(),
            final(self).spec_current() == old(self).spec_current(),
            final(self).wf(*final(world), *storage),
            final(world).spec_next_id() >= old(world).spec_next_id(),
            out == UiMenuOutput::SkipTurn ==> final(world).spec_next_id() == old(world).spec_next_id(),
            (out == UiMenuOutput::SkipTurn) <==> (is_confirm(spec_menu_action(*input)) && (old(self).spec_target_menu() is Some || !needs_target(
                old(self).spec_resolved_target(*old(world), *storage, *repo, *input),
            ))),
            // A committed action that needs no target resolves the turn without
            // ever spawning a target menu panel.
            old(self).spec_target_menu() is None && is_confirm(spec_menu_action(*input))
                && !needs_target(
                old(self).spec_resolved_target(*old(world), *storage, *repo, *input),
            ) ==> {
                &&& out == UiMenuOutput::SkipTurn
                &&& final(self).spec_target_menu() is None
                &&& final(world)@.dom() == old(world)@.dom()
            },
            // With a target menu open: confirm keeps both panels for the
            // caller to drop; back closes only the target menu; otherwise
            // nothing changes shape.
            match old(self).spec_target_menu() {
                Some(t) => {
                    &&& (spec_menu_action(*input) == Some(UiMenuAction::Back) ==> final(self).spec_target_menu() is None && final(world)@.dom() == old(world)@.dom().remove(t))
                    &&& (spec_menu_action(*input) != Some(UiMenuAction::Back) ==> final(self).spec_target_menu() == old(self).spec_target_menu() && final(world)@.dom()
                        == old(world)@.dom())
                },
                None => true,
            },
            // With only the action menu open and no commitment, nothing
            // changes shape.
            old(self).spec_target_menu() is None && !is_confirm(spec_menu_action(*input)) ==> {
                &&& final(self).spec_target_menu() is None
                &&& final(world)@.dom() == old(world)@.dom()
            },
            // A committed action that needs a target spawns the target menu,
            // listing the eligible participants' names — unless the eligible
            // set is empty, which silently keeps waiting.
            old(self).spec_target_menu() is None && is_confirm(spec_menu_action(*input))
                && needs_target(
                old(self).spec_resolved_target(*old(world), *storage, *repo, *input),
            ) ==> {
                let elig = spec_eligible(
                    old(self).spec_resolved_target(*old(world), *storage, *repo, *input),
                    old(self).spec_current(),
                    characters.spec_friendly().contains(old(self).spec_current()),
                    characters.spec_friendly(),
                    characters.spec_enemy(),
                );
                &&& out == UiMenuOutput::Pending
                &&& (elig.len() == 0 ==> final(self).spec_target_menu() is None && final(world)@.dom() == old(world)@.dom())
                &&& (elig.len() > 0 ==> match final(self).spec_target_menu() {
                    Some(t) => {
                        &&& !old(world)@.dom().contains(t)
                        &&& final(world)@.dom() == old(world)@.dom().insert(t)
                        &&& strs_of(final(world)@[t].options@) == spec_names_of(*storage, elig)
                        &&& final(world)@[t].selected == 0
                    },
                    None => false,
                })
            },
    {
        if let Some(target) = self.target_menu {
            let action = process_input(world, target, input);
            proof {
                assert(old(world)@.dom().contains(target));
                assert(world@.dom() =~= old(world)@.dom());
            }
            match action {
                Some(UiMenuAction::Forward) | Some(UiMenuAction::Select) => {
                    return UiMenuOutput::SkipTurn;
                },
                Some(UiMenuAction::Back) => {
                    world.despawn(target);
                    self.target_menu = None;
                    proof {
                        assert(world@.dom() =~= old(world)@.dom().remove(target));
                    }
                    return UiMenuOutput::Pending;
                },
                None => {
                    return UiMenuOutput::Pending;
                },
            }
        }

        proof {
            world.lemma_wf_panels();
        }
        let action = process_input(world, self.action_menu, input);
        proof {
            world.lemma_wf_panels();
            assert(world@.dom() =~= old(world)@.dom());
            assert(world@.dom().contains(self.spec_action_menu()));
            assert(world@[self.spec_action_menu()].options == old(world)@[
                self.spec_action_menu()].options);
            let am = self.spec_action_menu();
            let panel = old(world)@[am];
            let n = panel.options@.len() as int;
            assert(panel_ok(panel));
            assert(panel.options.len() == panel.options@.len());
            lemma_selection_clamps(n, input.up, input.down);
            assert(0 <= next_selection(panel.selected as int, n, input.up, input.down) < n);
            assert(world@[am].selected as int == next_selection(
                panel.selected as int,
                n,
                input.up,
                input.down,
            ));
        }
        match action {
            Some(UiMenuAction::Forward) | Some(UiMenuAction::Select) => {
                let sel = match world.get(self.action_menu) {
                    Some(ui) => ui.selected,
                    None => {
                        proof {
                            assert(false);
                        }
                        return UiMenuOutput::Pending;
                    },
                };
                proof {
                    assert(panel_ok(world@[self.spec_action_menu()]));
                    assert((sel as int) < storage.spec_character(
                        self.spec_current(),
                    ).actions@.len());
                }
                let aid = match storage.character(self.current_character) {
                    Some(c) => c.actions[sel],
                    None => {
                        proof {
                            assert(false);
                        }
                        return UiMenuOutput::Pending;
                    },
                };
                proof {
                    assert(storage@[self.spec_current().0 as int].actions@[sel as int].0
                        < repo@.len());
                }
                let act = match repo.get_action(&aid) {
                    Some(a) => a,
                    None => {
                        proof {
                            assert(false);
                        }
                        return UiMenuOutput::Pending;
                    },
                };
                proof {
                    assert(act.target == old(self).spec_resolved_target(
                        *old(world),
                        *storage,
                        *repo,
                        *input,
                    ));
                }
                match act.target {
                    TargetType::NoTarget | TargetType::Caster => {
                        return UiMenuOutput::SkipTurn;
                    },
                    _ => {
                        let _ = self.spawn_target_menu(world, characters, storage, act);
                        return UiMenuOutput::Pending;
                    },
                }
            },
            _ => UiMenuOutput::Pending,
        }
    }
}

/// Every eligible target resolves in the storage, because both roster sides
/// do.
proof fn lemma_eligible_resolve(
    policy: TargetType,
    caster: CharacterId,
    caster_friendly: bool,
    fr: Seq<CharacterId>,
    en: Seq<CharacterId>,
    storage: &CharacterStorage,
)
    requires
        forall|i: int| 0 <= i < fr.len() ==> (#[trigger] fr[i]).0 < storage@.len(),
        forall|i: int| 0 <= i < en.len() ==> (#[trigger] en[i]).0 < storage@.len(),
    ensures
        forall|i: int|
            0 <= i < spec_eligible(policy, caster, caster_friendly, fr, en).len() ==> (
            #[trigger] spec_eligible(policy, caster, caster_friendly, fr, en)[i]).0
                < storage@.len(),
{
    let elig = spec_eligible(policy, caster, caster_friendly, fr, en);
    let base = fr + en;
    assert(forall|i: int| 0 <= i < base.len() ==> (#[trigger] base[i]).0 < storage@.len());
    lemma_filter_subset(base, not_caster(caster));
    lemma_filter_subset(fr, not_caster(caster));
    lemma_filter_subset(en, not_caster(caster));
    assert forall|i: int| 0 <= i < elig.len() implies (#[trigger] elig[i]).0 < storage@.len() by {
        match policy {
            TargetType::Any { can_target_caster } => {
                if !can_target_caster {
                    assert(base.contains(elig[i]));
                    let j = choose|j: int| 0 <= j < base.len() && base[j] == elig[i];
                    assert(base[j].0 < storage@.len());
                }
            },
            TargetType::Friendly { can_target_caster } => {
                if !can_target_caster {
                    let own = if caster_friendly {
                        fr
                    } else {
                        en
                    };
                    assert(own.contains(elig[i]));
                    let j = choose|j: int| 0 <= j < own.len() && own[j] == elig[i];
                    assert(own[j].0 < storage@.len());
                }
            },
            _ => {},
        }
    }
}

} // verus!
