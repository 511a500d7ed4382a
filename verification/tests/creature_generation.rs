use zooid_lake::blueprint::{resolve_joints, ConnectSocketsUnchecked, JointSave};
use zooid_lake::npc::{generate_npc, grow_creature, spawn_allowed, CreatureBuilder};
use zooid_lake::parts::{CreatureKindId, CreaturePartKindId, SocketKindId};

/// Checks that every joint connects existing sockets of one kind and no socket is used twice.
fn well_formed(parts: &[CreaturePartKindId], joints: &[JointSave]) -> bool {
    let mut ends = Vec::new();
    for j in joints {
        for (p, s) in [(j.part_a, j.socket_a), (j.part_b, j.socket_b)] {
            if p as usize >= parts.len() || s as usize >= parts[p as usize].socket_count() {
                return false;
            }
            if ends.contains(&(p, s)) {
                return false;
            }
            ends.push((p, s));
        }
        if parts[j.part_a as usize].socket_kind(j.socket_a as usize)
            != parts[j.part_b as usize].socket_kind(j.socket_b as usize)
        {
            return false;
        }
    }
    true
}

#[test]
fn builder_attaches_at_the_first_free_compatible_socket() {
    let mut b = CreatureBuilder::new(CreaturePartKindId::Diamond);
    // A leg has one attachment socket; the diamond's first attachment socket is socket 1.
    assert!(b.try_attach(CreaturePartKindId::Leg));
    assert_eq!(b.joints, vec![JointSave { part_a: 1, socket_a: 0, part_b: 0, socket_b: 1 }]);
    assert!(b.try_attach(CreaturePartKindId::Leg));
    assert_eq!(b.joints[1], JointSave { part_a: 2, socket_a: 0, part_b: 0, socket_b: 2 });
    assert_eq!(b.power, 5);
    // A spear needs a fixed socket; the diamond has none.
    assert!(!b.try_attach(CreaturePartKindId::Spear));
    assert_eq!(b.joints.len(), 2);
    assert_eq!(b.power, 5);
}

#[test]
fn finishing_attaches_a_heart_to_every_heart_socket() {
    let mut b = CreatureBuilder::new(CreaturePartKindId::SmallOval);
    assert!(b.try_attach(CreaturePartKindId::TriBlob));
    // SmallOval socket 0 (fixed) takes TriBlob socket 0 (fixed).
    assert_eq!(b.joints[0], JointSave { part_a: 1, socket_a: 0, part_b: 0, socket_b: 0 });
    let (parts, joints) = b.finish();
    assert_eq!(
        parts,
        vec![
            CreaturePartKindId::SmallOval,
            CreaturePartKindId::TriBlob,
            CreaturePartKindId::Heart,
            CreaturePartKindId::Heart,
            CreaturePartKindId::Heart,
        ]
    );
    assert_eq!(joints[1], JointSave { part_a: 0, socket_a: 4, part_b: 2, socket_b: 0 });
    assert_eq!(joints[2], JointSave { part_a: 0, socket_a: 5, part_b: 3, socket_b: 0 });
    assert_eq!(joints[3], JointSave { part_a: 1, socket_a: 6, part_b: 4, socket_b: 0 });
    assert!(well_formed(&parts, &joints));
}

#[test]
fn generated_creatures_are_well_formed_and_strong_enough() {
    for depth in [0u16, 1, 2, 5] {
        for _ in 0..40 {
            let b = generate_npc(depth);
            assert!(b.parts.len() >= 1);
            assert_ne!(b.parts[0], CreaturePartKindId::Heart);
            assert!(well_formed(&b.parts, &b.joints));
            assert!(matches!(
                b.kind,
                CreatureKindId::PlayerFriendly | CreatureKindId::Wandering | CreatureKindId::Hostile
            ));
            assert_eq!(b.depth, depth + b.in_background as u16);
            // Every heart socket of every non-heart part holds a heart.
            for (p, kind) in b.parts.iter().enumerate() {
                if *kind == CreaturePartKindId::Heart {
                    continue;
                }
                for s in 0..kind.socket_count() {
                    if kind.socket_kind(s) == SocketKindId::Heart {
                        assert!(b.joints.iter().any(|j| j.part_a as usize == p && j.socket_a as usize == s));
                    }
                }
            }
            // One joint per part beyond the head.
            assert_eq!(b.joints.len() + 1, b.parts.len());
            // The grown parts form a tree: joint i attaches part i + 1 to an earlier part.
            let grown = b.parts.iter().filter(|k| **k != CreaturePartKindId::Heart).count();
            for (i, j) in b.joints.iter().take(grown - 1).enumerate() {
                assert_eq!(j.part_a as usize, i + 1);
                assert!((j.part_b as usize) <= i);
            }
        }
    }
}

#[test]
fn growth_follows_the_draws_until_it_stops() {
    let draws = vec![
        CreaturePartKindId::Leg,
        CreaturePartKindId::Leg,
        CreaturePartKindId::Spear,
        CreaturePartKindId::Leg,
    ];
    // The spear finds no fixed socket, so growth stops there and the last leg is never used.
    let (b, stopped) = grow_creature(CreaturePartKindId::Diamond, &draws, 1);
    assert!(stopped);
    assert_eq!(b.joints.len(), 2);
    assert_eq!(b.joints[1], JointSave { part_a: 2, socket_a: 0, part_b: 0, socket_b: 2 });
    assert_eq!(b.power, 5);
    // A creature already strong enough for its depth does not grow.
    let (b, stopped) = grow_creature(CreaturePartKindId::Diamond, &draws, 0);
    assert!(!stopped);
    assert!(b.joints.is_empty());
}

#[test]
fn deep_players_still_get_creatures() {
    let b = generate_npc(60);
    assert!(well_formed(&b.parts, &b.joints));
    assert_eq!(b.depth, 60 + b.in_background as u16);
    assert_ne!(b.parts[0], CreaturePartKindId::Heart);
}

#[test]
fn spawning_stops_at_the_creature_limit() {
    assert!(spawn_allowed(0));
    assert!(spawn_allowed(31));
    assert!(!spawn_allowed(32));
}

#[test]
fn resolving_joints_names_socket_entities() {
    let sockets = vec![vec![10, 11, 12], vec![20]];
    let joints = vec![JointSave { part_a: 0, socket_a: 2, part_b: 1, socket_b: 0 }];
    assert_eq!(
        resolve_joints(&sockets, &joints),
        vec![ConnectSocketsUnchecked { first_socket: 12, second_socket: 20 }]
    );
}
