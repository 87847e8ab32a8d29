//! Battle round, turn-order and menu-flow behavior.

use battle_core::actions::{ActionId, ActionRepo, ActionResolution, TargetType};
use battle_core::battle::{
    draw_turn_order, BattlePhase, BattleServer, Characters, Placement, RosterSide,
};
use battle_core::characters::{CharacterId, CharacterStorage, SpawnError};
use battle_core::ui::{MenuInput, MenuWorld};

fn no_input() -> MenuInput {
    MenuInput { up: false, down: false, select: false, forward: false, back: false }
}

fn press_select() -> MenuInput {
    MenuInput { up: false, down: false, select: true, forward: false, back: false }
}

fn press_back() -> MenuInput {
    MenuInput { up: false, down: false, select: false, forward: false, back: true }
}

fn press_down() -> MenuInput {
    MenuInput { up: false, down: true, select: false, forward: false, back: false }
}

/// Two characters per side, everyone with the full action list.
fn setup(
    speeds: &[(u32, bool)],
) -> (ActionRepo, CharacterStorage, Characters, Vec<CharacterId>) {
    let repo = ActionRepo::new();
    let mut storage = CharacterStorage::new();
    let mut characters = Characters::new();
    let mut ids = Vec::new();
    let all_actions: Vec<ActionId> =
        vec![ActionId(0), ActionId(1), ActionId(2), ActionId(3), ActionId(4)];
    for (idx, (speed, friendly)) in speeds.iter().enumerate() {
        let id = storage
            .spawn(&repo, format!("Fighter {}", idx), true, *speed, all_actions.clone())
            .unwrap();
        if *friendly {
            characters.add_friendly(id);
        } else {
            characters.add_enemy(id);
        }
        ids.push(id);
    }
    assert!(storage.is_wf(repo.len()));
    (repo, storage, characters, ids)
}

#[test]
fn turn_order_is_a_permutation_of_the_roster() {
    let (repo, storage, characters, ids) = setup(&[(5, true), (7, true), (3, false), (9, false)]);
    let mut server = BattleServer::new(characters);
    let mut world = MenuWorld::new();

    // Initializing -> StartingRound -> StartingTurn builds the order.
    let placements = server.tick(&mut world, &no_input(), &repo, &storage);
    assert!(placements.is_some());
    assert_eq!(server.phase(), BattlePhase::StartingRound);
    server.tick(&mut world, &no_input(), &repo, &storage);
    assert_eq!(server.phase(), BattlePhase::StartingTurn);

    let mut order: Vec<u32> = server.turn_order().iter().map(|c| c.0).collect();
    let mut expected: Vec<u32> = ids.iter().map(|c| c.0).collect();
    order.sort();
    expected.sort();
    assert_eq!(order, expected);
}

#[test]
fn zero_weight_participant_is_always_drawn_last() {
    for _ in 0..25 {
        let pool = vec![(10u32, CharacterId(0)), (0u32, CharacterId(1))];
        let order = draw_turn_order(pool);
        assert_eq!(order, vec![CharacterId(0), CharacterId(1)]);
    }
}

#[test]
fn zero_weight_among_several_is_drawn_last() {
    for _ in 0..25 {
        let pool = vec![(4u32, CharacterId(0)), (0u32, CharacterId(1)), (6u32, CharacterId(2))];
        let order = draw_turn_order(pool);
        assert_eq!(order.len(), 3);
        assert_eq!(*order.last().unwrap(), CharacterId(1));
    }
}

#[test]
fn single_candidate_is_appended_directly() {
    let pool = vec![(7u32, CharacterId(42))];
    let order = draw_turn_order(pool);
    assert_eq!(order, vec![CharacterId(42)]);
}

#[test]
fn placement_plan_lines_up_the_two_sides() {
    let (_repo, _storage, characters, ids) = setup(&[(5, true), (5, true), (5, false)]);
    let server = BattleServer::new(characters);
    let plan = server.placement_plan();
    assert_eq!(
        plan,
        vec![
            Placement { id: ids[0], side: RosterSide::Friendly, index: 0 },
            Placement { id: ids[1], side: RosterSide::Friendly, index: 1 },
            Placement { id: ids[2], side: RosterSide::Enemy, index: 0 },
        ]
    );
}

/// Runs the server up to the first WaitingForInput phase.
fn advance_to_waiting(
    server: &mut BattleServer,
    world: &mut MenuWorld,
    repo: &ActionRepo,
    storage: &CharacterStorage,
) {
    for _ in 0..4 {
        if server.phase() == BattlePhase::WaitingForInput {
            return;
        }
        server.tick(world, &no_input(), repo, storage);
    }
    assert_eq!(server.phase(), BattlePhase::WaitingForInput);
}

#[test]
fn no_target_action_resolves_without_spawning_a_target_menu() {
    // Action index 0 is Idle, whose policy needs no target.
    let (repo, storage, characters, _ids) = setup(&[(5, true), (5, false)]);
    let mut server = BattleServer::new(characters);
    let mut world = MenuWorld::new();
    advance_to_waiting(&mut server, &mut world, &repo, &storage);

    let menus = server.menus().expect("waiting state has menus");
    assert_eq!(menus.target_menu(), None);
    let action_menu = menus.action_menu();
    assert!(world.contains(action_menu));

    // Selection starts at 0 (Idle). Confirming must resolve the turn at
    // once; no target menu entity may ever appear.
    server.tick(&mut world, &press_select(), &repo, &storage);

    assert!(!world.contains(action_menu));
    // The next turn's menu is a fresh entity.
    if let Some(m) = server.menus() {
        assert_ne!(m.action_menu(), action_menu);
        assert_eq!(m.target_menu(), None);
    }
}

#[test]
fn menu_despawn_is_atomic_after_a_resolved_turn() {
    // Action index 1 is Punch (Enemy policy): commits open a target menu.
    let (repo, storage, characters, _ids) = setup(&[(5, true), (5, false)]);
    let mut server = BattleServer::new(characters);
    let mut world = MenuWorld::new();
    advance_to_waiting(&mut server, &mut world, &repo, &storage);

    // Move selection to Punch and commit: the target menu appears.
    server.tick(&mut world, &press_down(), &repo, &storage);
    server.tick(&mut world, &press_select(), &repo, &storage);
    let menus = server.menus().expect("still waiting");
    let action_menu = menus.action_menu();
    let target_menu = menus.target_menu().expect("target menu spawned");
    assert!(world.contains(action_menu));
    assert!(world.contains(target_menu));

    // Confirm the target: the turn resolves and both panels vanish.
    server.tick(&mut world, &press_select(), &repo, &storage);
    assert!(!world.contains(action_menu));
    assert!(!world.contains(target_menu));
}

#[test]
fn backing_out_despawns_only_the_target_menu() {
    let (repo, storage, characters, _ids) = setup(&[(5, true), (5, false)]);
    let mut server = BattleServer::new(characters);
    let mut world = MenuWorld::new();
    advance_to_waiting(&mut server, &mut world, &repo, &storage);

    server.tick(&mut world, &press_down(), &repo, &storage);
    server.tick(&mut world, &press_select(), &repo, &storage);
    let menus = server.menus().unwrap();
    let action_menu = menus.action_menu();
    let target_menu = menus.target_menu().unwrap();

    server.tick(&mut world, &press_back(), &repo, &storage);
    assert!(world.contains(action_menu));
    assert!(!world.contains(target_menu));
    assert_eq!(server.menus().unwrap().target_menu(), None);
}

#[test]
fn action_menu_lists_the_characters_actions() {
    let (repo, storage, characters, _ids) = setup(&[(5, true), (5, false)]);
    let mut server = BattleServer::new(characters);
    let mut world = MenuWorld::new();
    advance_to_waiting(&mut server, &mut world, &repo, &storage);

    let menus = server.menus().unwrap();
    let panel = world.get(menus.action_menu()).expect("panel exists");
    assert_eq!(panel.options, vec!["Idle", "Punch", "Block", "Heal", "Shield"]);
    assert_eq!(panel.selected, 0);

    // The repository resolves names as expected.
    assert_eq!(repo.find_action_name("Idle"), Some(ActionId(0)));
    assert_eq!(repo.find_action_name("Shield"), Some(ActionId(4)));
    assert_eq!(repo.find_action_name("Missing"), None);
    let heal = repo.get_action(&ActionId(3)).unwrap();
    assert_eq!(heal.target, TargetType::Any { can_target_caster: true });
    assert!(matches!(heal.resolution, ActionResolution::Heal(5)));
    assert!(repo.get_action(&ActionId(99)).is_none());
}

#[test]
fn spawning_requires_valid_actions() {
    let repo = ActionRepo::new();
    let mut storage = CharacterStorage::new();
    assert_eq!(
        storage.spawn(&repo, "Empty".to_string(), true, 5, vec![]),
        Err(SpawnError::NoActions)
    );
    assert_eq!(
        storage.spawn(&repo, "Bogus".to_string(), true, 5, vec![ActionId(17)]),
        Err(SpawnError::UnknownAction)
    );
    let id = storage.spawn(&repo, "Ok".to_string(), true, 5, vec![ActionId(0)]).unwrap();
    assert_eq!(id, CharacterId(0));
    assert_eq!(storage.character(id).unwrap().name, "Ok");
    assert_eq!(storage.len(), 1);
}

#[test]
fn rosters_stay_disjoint() {
    let (_repo, _storage, mut characters, ids) = setup(&[(5, true), (5, false)]);
    // Adding an id that already sits on either side changes nothing.
    characters.add_enemy(ids[0]);
    characters.add_friendly(ids[1]);
    assert_eq!(characters.friendly().as_slice(), &[ids[0]]);
    assert_eq!(characters.enemy().as_slice(), &[ids[1]]);
}
