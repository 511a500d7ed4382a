use zooid_lake::assets::MaterialId;
use zooid_lake::creature::{
    attack_mode, is_pickable, max_depth_from_power, max_depth_of_parts, next_player_depth,
    part_material, power_of_parts, AttackMode, BuildingState, GameState, RelativeDepthLayer,
};
use tinyvec::ArrayVec;
use zooid_lake::parts::{CreatureKindId, CreaturePartKindId, Reactable};
use zooid_lake::reactions::{push_reaction, MAX_REACTIONS};

#[test]
fn depth_from_power() {
    assert_eq!(max_depth_from_power(0), 0);
    assert_eq!(max_depth_from_power(31), 0);
    assert_eq!(max_depth_from_power(32), 1);
    assert_eq!(max_depth_from_power(95), 2);
    // The depth is truncated to 16 bits.
    assert_eq!(max_depth_from_power(32 * 65536 + 64), 2);
}

#[test]
fn power_and_depth_of_parts() {
    let kinds = vec![
        CreaturePartKindId::HugeBlob,
        CreaturePartKindId::Spear,
        CreaturePartKindId::Heart,
    ];
    assert_eq!(power_of_parts(&kinds), 40);
    assert_eq!(max_depth_of_parts(&kinds), 1);
    assert_eq!(power_of_parts(&vec![]), 0);
}

#[test]
fn relative_depth_layers() {
    assert_eq!(RelativeDepthLayer::from_cmp(3, 3), RelativeDepthLayer::Active);
    assert_eq!(RelativeDepthLayer::from_cmp(4, 3), RelativeDepthLayer::Background);
    assert_eq!(RelativeDepthLayer::from_cmp(2, 3), RelativeDepthLayer::Inactive);
    assert_eq!(RelativeDepthLayer::from_cmp(5, 3), RelativeDepthLayer::Inactive);
}

#[test]
fn player_depth_input() {
    assert_eq!(next_player_depth(2, 5, true, false), 1);
    assert_eq!(next_player_depth(0, 5, true, false), 0);
    assert_eq!(next_player_depth(2, 5, false, true), 3);
    assert_eq!(next_player_depth(5, 5, false, true), 5);
    assert_eq!(next_player_depth(7, 5, false, true), 5);
    assert_eq!(next_player_depth(2, 5, true, true), 2);
    assert_eq!(next_player_depth(2, 5, false, false), 2);
    assert_eq!(next_player_depth(u16::MAX, 9, false, true), 9);
}

#[test]
fn attack_buttons() {
    assert_eq!(attack_mode(true, true), AttackMode::WithTarget);
    assert_eq!(attack_mode(false, true), AttackMode::WithoutTarget);
    assert_eq!(attack_mode(false, false), AttackMode::NoAttack);
}

#[test]
fn pickable_creatures() {
    assert!(is_pickable(CreatureKindId::Player));
    assert!(is_pickable(CreatureKindId::PlayerFriendly));
    assert!(is_pickable(CreatureKindId::HeartOnly));
    assert!(!is_pickable(CreatureKindId::Wandering));
    assert!(!is_pickable(CreatureKindId::Hostile));
}

#[test]
fn part_materials() {
    assert_eq!(part_material(true, CreatureKindId::Player), MaterialId::PartHeadPlayer);
    assert_eq!(part_material(true, CreatureKindId::HeartOnly), MaterialId::PartHeadHeartOnly);
    assert_eq!(part_material(false, CreatureKindId::Hostile), MaterialId::PartHostile);
    assert_eq!(part_material(false, CreatureKindId::Wandering), MaterialId::PartWandering);
}

#[test]
fn state_toggles() {
    assert_eq!(GameState::Playing.toggled(), GameState::Paused);
    assert_eq!(GameState::Paused.toggled(), GameState::Playing);
    assert_eq!(BuildingState::Playing.toggled(), (BuildingState::Building, true));
    assert_eq!(BuildingState::Building.toggled(), (BuildingState::Playing, false));
    assert_eq!(BuildingState::Dragging.toggled(), (BuildingState::Playing, false));
}

#[test]
fn a_part_keeps_its_four_newest_reactions() {
    let mut active: ArrayVec<[(u32, Reactable); 4]> = ArrayVec::new();
    push_reaction(&mut active, (0, Reactable::Spawn));
    assert_eq!(active.as_slice(), &[(0, Reactable::Spawn)]);
    push_reaction(&mut active, (1, Reactable::Connect));
    push_reaction(&mut active, (2, Reactable::Disconnect));
    push_reaction(&mut active, (3, Reactable::Death));
    assert_eq!(active.len(), MAX_REACTIONS);
    // A fifth reaction pushes out the oldest.
    push_reaction(&mut active, (4, Reactable::Connect));
    assert_eq!(
        active.as_slice(),
        &[
            (1, Reactable::Connect),
            (2, Reactable::Disconnect),
            (3, Reactable::Death),
            (4, Reactable::Connect),
        ]
    );
}
