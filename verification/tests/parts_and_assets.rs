use zooid_lake::assets::{AudioId, MaterialId, MeshId, ShapeId};
use zooid_lake::parts::{
    CreatureKindId, CreaturePartKindId, JointFlavor, PhysicsLayers, SocketKindId, MAX_SOCKETS,
};

#[test]
fn asset_indices_follow_declaration_order() {
    assert_eq!(MeshId::PartHugeBlob.index(), 0);
    assert_eq!(MeshId::ConnectionLine.index(), MeshId::COUNT - 1);
    assert_eq!(ShapeId::SocketHeart.index(), 9);
    assert_eq!(MaterialId::GuiPressed.index(), MaterialId::COUNT - 1);
    assert_eq!(AudioId::SocketConnect.index(), 2);
    for (i, m) in MeshId::variants().into_iter().enumerate() {
        assert_eq!(m.index(), i);
    }
    for (i, m) in MaterialId::variants().into_iter().enumerate() {
        assert_eq!(m.index(), i);
    }
    assert_eq!(ShapeId::variants().len(), ShapeId::COUNT);
    assert_eq!(AudioId::variants().len(), 3);
}

#[test]
fn audio_file_names() {
    assert_eq!(AudioId::SocketDrag.file_name(), "socket_drag.flac");
    assert_eq!(AudioId::SocketHoverWithLine.file_name(), "socket_hover_with_line.flac");
    assert_eq!(AudioId::SocketConnect.file_name(), "socket_connect.flac");
}

#[test]
fn part_metadata_table() {
    let heart = CreaturePartKindId::Heart.metadata();
    assert_eq!(heart.power, 0);
    assert_eq!(heart.mesh, MeshId::PartHeart);
    assert_eq!(heart.layer, PhysicsLayers::Damage);
    assert_eq!(CreaturePartKindId::HugeBlob.metadata().power, 32);
    assert_eq!(CreaturePartKindId::Rectangle.metadata().mesh, MeshId::PartSquare);
    assert_eq!(CreaturePartKindId::Rectangle.metadata().shape, ShapeId::PartSquare);
    assert_eq!(CreaturePartKindId::Spear.metadata().power, 8);
    assert_eq!(CreaturePartKindId::SmallOval.metadata().power, 5);
    assert_eq!(CreaturePartKindId::HugeBlob.socket_count(), 13);
    assert_eq!(CreaturePartKindId::HugeBlob.socket_count(), MAX_SOCKETS);
    assert_eq!(CreaturePartKindId::TriBlob.socket_count(), 7);
    assert_eq!(CreaturePartKindId::TriBlob.socket_kind(6), SocketKindId::Heart);
    assert_eq!(CreaturePartKindId::Diamond.socket_kind(0), SocketKindId::Rotating);
    assert_eq!(CreaturePartKindId::Leg.socket_kind(0), SocketKindId::Attachment);
    assert_eq!(CreaturePartKindId::SmallOval.socket_kind(4), SocketKindId::Heart);
}

#[test]
fn only_hearts_have_no_power() {
    for k in CreaturePartKindId::variants() {
        assert_eq!(k.metadata().power == 0, k == CreaturePartKindId::Heart);
        assert!(k.socket_count() <= MAX_SOCKETS);
    }
}

#[test]
fn from_repr_undoes_index() {
    for k in CreaturePartKindId::variants() {
        assert_eq!(CreaturePartKindId::from_repr(k.index()), Some(k));
    }
    assert_eq!(CreaturePartKindId::from_repr(8), None);
    assert_eq!(CreatureKindId::from_repr(2), Some(CreatureKindId::PlayerFriendly));
    assert_eq!(CreatureKindId::from_repr(5), None);
}

#[test]
fn socket_metadata_and_joints() {
    assert_eq!(SocketKindId::Heart.metadata(), (MeshId::SocketHeart, ShapeId::SocketHeart));
    assert_eq!(SocketKindId::Fixed.metadata(), (MeshId::SocketRegular, ShapeId::SocketNonHeart));
    assert_eq!(SocketKindId::Fixed.joint_flavor(), JointFlavor::RevoluteTight);
    assert_eq!(SocketKindId::Rotating.joint_flavor(), JointFlavor::RevoluteMedium);
    assert_eq!(SocketKindId::Attachment.joint_flavor(), JointFlavor::RevoluteLoose);
    assert_eq!(SocketKindId::Heart.joint_flavor(), JointFlavor::Fixed);
}
