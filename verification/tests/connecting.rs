use zooid_lake::building::{drop_roles, press_disconnects, settle_collision};
use zooid_lake::connect::{
    first_line_touching, socket_index, ConnectPlan, ConnectSockets, DisconnectSocket,
    LineSegment, SocketFacts,
};
use zooid_lake::parts::{CreatureKindId, SocketKindId};

fn socket(kind: SocketKindId, part: u64) -> SocketFacts {
    SocketFacts { kind: Some(kind), connected: false, part: Some(part) }
}

#[test]
fn compatible_free_sockets_connect() {
    let a = socket(SocketKindId::Fixed, 1);
    let f = socket(SocketKindId::Fixed, 2);
    assert_eq!(
        ConnectSockets::plan(&a, &f, Some(100), Some(200)),
        Some(ConnectPlan {
            socket_kind: SocketKindId::Fixed,
            attached_part: 1,
            free_part: 2,
            creature: 100,
            free_creature: Some(200),
        })
    );
    assert_eq!(ConnectSockets::plan(&a, &f, Some(100), None).unwrap().free_creature, None);
}

#[test]
fn refused_connections() {
    let a = socket(SocketKindId::Fixed, 1);
    let f = socket(SocketKindId::Fixed, 2);
    // Different kinds.
    assert_eq!(ConnectSockets::plan(&a, &socket(SocketKindId::Heart, 2), Some(100), None), None);
    // Already connected.
    let connected = SocketFacts { connected: true, ..f };
    assert_eq!(ConnectSockets::plan(&a, &connected, Some(100), None), None);
    // Same creature.
    assert_eq!(ConnectSockets::plan(&a, &f, Some(100), Some(100)), None);
    // Not a socket.
    let none = SocketFacts { kind: None, ..f };
    assert_eq!(ConnectSockets::plan(&a, &none, Some(100), None), None);
    // No creature for the attached part.
    assert_eq!(ConnectSockets::plan(&a, &f, None, None), None);
    // No part for the free socket.
    let orphan = SocketFacts { part: None, ..f };
    assert_eq!(ConnectSockets::plan(&a, &orphan, Some(100), None), None);
}

#[test]
fn socket_indices() {
    let ids = vec![7, 8, 9, 8];
    assert_eq!(socket_index(&ids, 8), Some(1));
    assert_eq!(socket_index(&ids, 9), Some(2));
    assert_eq!(socket_index(&ids, 5), None);
}

#[test]
fn split_keeps_the_stronger_half() {
    let plan = DisconnectSocket::plan(1, 2, vec![1, 3], 3, vec![2, 4, 5], 10, Some(3));
    assert_eq!(plan.larger_head, 2);
    assert_eq!(plan.smaller_head, 1);
    assert_eq!(plan.smaller_parts, vec![1, 3]);
    assert_eq!(plan.smaller_power, 3);
    assert_eq!(plan.smaller_kind, CreatureKindId::PlayerFriendly);
    assert!(plan.reassign_larger_head);
    assert!(plan.assign_smaller_head);
}

#[test]
fn split_tie_keeps_the_first_half_and_a_lone_heart_is_heart_only() {
    let plan = DisconnectSocket::plan(1, 2, vec![1], 0, vec![2], 0, Some(1));
    assert_eq!(plan.larger_head, 1);
    assert_eq!(plan.smaller_head, 2);
    assert_eq!(plan.smaller_kind, CreatureKindId::HeartOnly);
    assert!(!plan.reassign_larger_head);
    let headless = DisconnectSocket::plan(1, 2, vec![1], 5, vec![2], 0, None);
    assert!(!headless.assign_smaller_head);
    assert!(!headless.reassign_larger_head);
}

#[test]
fn lines_at_sockets() {
    let lines = vec![
        LineSegment { line: 100, start: 1, end: 2 },
        LineSegment { line: 101, start: 3, end: 4 },
        LineSegment { line: 102, start: 4, end: 5 },
    ];
    assert_eq!(first_line_touching(&lines, 4), Some(101));
    assert_eq!(first_line_touching(&lines, 9), None);
    assert_eq!(settle_collision(Some(4), 3, 4, &lines), Some(vec![101, 102]));
    assert_eq!(settle_collision(Some(5), 3, 4, &lines), None);
    assert_eq!(settle_collision(None, 3, 4, &lines), None);
}

#[test]
fn dropping_sockets() {
    let player = 50;
    let r = drop_roles(1, 2, Some(player), Some(60), player).unwrap();
    assert_eq!((r.attached_socket, r.free_socket), (1, 2));
    let r = drop_roles(1, 2, Some(60), Some(player), player).unwrap();
    assert_eq!((r.attached_socket, r.free_socket), (2, 1));
    assert_eq!(drop_roles(1, 2, Some(60), Some(70), player), None);
    assert_eq!(drop_roles(1, 2, None, Some(player), player), None);
    assert!(press_disconnects(Some(player), player));
    assert!(!press_disconnects(Some(60), player));
    assert!(!press_disconnects(None, player));
}
