use zooid_lake::blueprint::JointSave;
use zooid_lake::connect::CreatureJoint;
use zooid_lake::creature::power_of_parts;
use zooid_lake::parts::{CreatureKindId, CreaturePartKindId};
use zooid_lake::session::{
    build_creature_save, default_player_save, save_name, storage_bytes,
    storage_text, CreaturePartData, CreatureSave, PartRecord, SessionError, WorldSave,
};

fn data(kind: CreaturePartKindId) -> CreaturePartData {
    CreaturePartData { kind, pos_x: 1.5f32.to_bits(), pos_y: (-2.0f32).to_bits(), rot: 0 }
}

#[test]
fn saving_a_creature_keeps_its_own_joints_by_index() {
    let parts = vec![
        PartRecord { entity: 70, data: data(CreaturePartKindId::TriBlob), is_head: false },
        PartRecord { entity: 71, data: data(CreaturePartKindId::Leg), is_head: true },
        PartRecord { entity: 72, data: data(CreaturePartKindId::Heart), is_head: false },
    ];
    let joints = vec![
        CreatureJoint { part_a: 71, socket_a: 0, part_b: 70, socket_b: 1 },
        // A joint of another creature.
        CreatureJoint { part_a: 90, socket_a: 0, part_b: 91, socket_b: 0 },
        CreatureJoint { part_a: 72, socket_a: 0, part_b: 70, socket_b: 6 },
    ];
    let save = build_creature_save(3, CreatureKindId::Wandering, &parts, &joints);
    assert_eq!(save.depth, 3);
    assert_eq!(save.kind, CreatureKindId::Wandering);
    assert_eq!(save.head, 1);
    assert_eq!(save.parts, vec![data(CreaturePartKindId::TriBlob), data(CreaturePartKindId::Leg), data(CreaturePartKindId::Heart)]);
    assert_eq!(
        save.joints,
        vec![
            JointSave { part_a: 1, socket_a: 0, part_b: 0, socket_b: 1 },
            JointSave { part_a: 2, socket_a: 0, part_b: 0, socket_b: 6 },
        ]
    );
    assert_eq!(f32::from_bits(save.parts[0].pos_x), 1.5);
}

#[test]
fn player_depth_of_a_session() {
    let creature = |kind, depth| CreatureSave { depth, kind, head: 0, parts: vec![], joints: vec![] };
    let world = WorldSave(vec![
        creature(CreatureKindId::Hostile, 4),
        creature(CreatureKindId::Player, 2),
        creature(CreatureKindId::Player, 9),
    ]);
    assert_eq!(world.player_depth(), Some(2));
    assert_eq!(WorldSave(vec![creature(CreatureKindId::Hostile, 1)]).player_depth(), None);
}

#[test]
fn default_session() {
    let save = default_player_save();
    assert_eq!(save.kind, CreatureKindId::Player);
    assert_eq!(save.head, 2);
    assert_eq!(save.depth, 0);
    assert_eq!(save.parts.len(), 11);
    assert_eq!(save.joints.len(), 10);
    assert_eq!(save.parts[2].kind, CreaturePartKindId::Spear);
    assert_eq!(save.joints[9], JointSave { part_a: 1, socket_a: 6, part_b: 10, socket_b: 0 });
    let kinds: Vec<_> = save.parts.iter().map(|p| p.kind).collect();
    assert_eq!(power_of_parts(&kinds), 21);
    assert!(save.parts.iter().all(|p| f32::from_bits(p.pos_x) == 0.0 && f32::from_bits(p.rot) == 0.0));
}

#[test]
fn session_names() {
    assert_eq!(save_name(0), "zlsave-0");
    assert_eq!(save_name(7), "zlsave-7");
    assert_eq!(save_name(42), "zlsave-42");
    assert_eq!(save_name(100), "zlsave-100");
    assert_eq!(save_name(255), "zlsave-255");
    assert_eq!(save_name(208), "zlsave-208");
}

#[test]
fn storage_text_round_trip() {
    let bytes = vec![0u8, 1, 2, 250, 255, 17, 9];
    let text = storage_text(&bytes);
    assert_eq!(text, "AAEC+v8RCQ==");
    assert_eq!(storage_bytes(&text), Ok(bytes));
    assert_eq!(storage_text(&vec![]), "");
    assert_eq!(storage_bytes("not base64!"), Err(SessionError::CorruptText));
}
