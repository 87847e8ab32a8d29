//! Selection clamping, input edge tracking, and target eligibility.

use battle_core::actions::TargetType;
use battle_core::characters::CharacterId;
use battle_core::tools::{process_inputs, reset_input, Input};
use battle_core::ui::{eligible_targets, MenuWorld, Ui3d};

fn panel(n: usize) -> Ui3d {
    let mut options = Vec::new();
    for i in 0..n {
        options.push(format!("option {}", i));
    }
    Ui3d { options, selected: 0 }
}

#[test]
fn selection_clamps_at_both_ends() {
    let mut world = MenuWorld::new();
    let id = world.spawn(panel(3));

    // Repeated downs stop at the last index.
    for _ in 0..5 {
        world.step_selection(id, false, true);
    }
    assert_eq!(world.get(id).unwrap().selected, 2);

    // Repeated ups stop at zero.
    for _ in 0..7 {
        world.step_selection(id, true, false);
    }
    assert_eq!(world.get(id).unwrap().selected, 0);

    // Opposite keys in the same frame cancel out.
    world.step_selection(id, true, true);
    assert_eq!(world.get(id).unwrap().selected, 0);
}

#[test]
fn menu_world_spawns_fresh_ids_and_tolerates_dangling_despawn() {
    let mut world = MenuWorld::new();
    let a = world.spawn(panel(1));
    let b = world.spawn(panel(2));
    assert_ne!(a, b);
    assert!(world.contains(a) && world.contains(b));

    world.despawn(a);
    assert!(!world.contains(a));
    // Despawning again is a benign no-op.
    world.despawn(a);
    assert!(!world.contains(a));
    assert!(world.contains(b));

    // Identifiers are never reused.
    let c = world.spawn(panel(1));
    assert_ne!(c, a);
    assert_ne!(c, b);
}

#[test]
fn input_tracks_edges_per_frame() {
    let mut input = Input::new();
    process_inputs(&mut input, 10, true);
    assert!(input.pressed(10));
    assert!(input.just_pressed(10));
    assert!(!input.released(10));

    // The edge clears at the frame boundary; the key stays held.
    reset_input(&mut input);
    assert!(input.pressed(10));
    assert!(!input.just_pressed(10));

    process_inputs(&mut input, 10, false);
    assert!(!input.pressed(10));
    assert!(input.released(10));
    reset_input(&mut input);
    assert!(!input.released(10));
}

fn ids(v: &[u32]) -> Vec<CharacterId> {
    v.iter().map(|x| CharacterId(*x)).collect()
}

#[test]
fn target_eligibility_follows_the_policy_table() {
    let friendly = ids(&[0, 1]);
    let enemy = ids(&[2, 3]);
    let caster = CharacterId(0);

    // Any: both sides; the caster drops out unless allowed.
    assert_eq!(
        eligible_targets(
            TargetType::Any { can_target_caster: true },
            caster,
            true,
            &friendly,
            &enemy
        ),
        ids(&[0, 1, 2, 3])
    );
    assert_eq!(
        eligible_targets(
            TargetType::Any { can_target_caster: false },
            caster,
            true,
            &friendly,
            &enemy
        ),
        ids(&[1, 2, 3])
    );

    // Friendly: the caster's own side.
    assert_eq!(
        eligible_targets(
            TargetType::Friendly { can_target_caster: false },
            caster,
            true,
            &friendly,
            &enemy
        ),
        ids(&[1])
    );
    // An enemy caster's "friendly" side is the enemy roster.
    assert_eq!(
        eligible_targets(
            TargetType::Friendly { can_target_caster: true },
            CharacterId(2),
            false,
            &friendly,
            &enemy
        ),
        ids(&[2, 3])
    );

    // Enemy resolves to the caster's own roster side (the deliberate
    // naming quirk).
    assert_eq!(eligible_targets(TargetType::Enemy, caster, true, &friendly, &enemy), ids(&[0, 1]));
    assert_eq!(
        eligible_targets(TargetType::Enemy, CharacterId(2), false, &friendly, &enemy),
        ids(&[2, 3])
    );
}
