//! Creature part kinds, socket kinds and their constant metadata.

use vstd::prelude::*;

use crate::assets::{MeshId, ShapeId};

verus! {

/// The largest number of sockets that a single part can have.
pub const MAX_SOCKETS: usize = 13;

/// Layers used as both memberships and filters by every collision layer set.
#[derive(Clone, Copy, Debug, PartialEq, Eq, Hash, Structural)]
pub enum PhysicsLayers {
    Default,
    Damage,
    Socket,
    Background,
}

/// The kind of a socket, deciding which joint connects it and how it looks.
#[derive(Clone, Copy, Debug, PartialEq, Eq, Hash, Structural)]
pub enum SocketKindId {
    Fixed,
    Rotating,
    Attachment,
    /// Sockets made for heart parts.
    Heart,
}

/// How the joint between two connected sockets of one kind moves.
#[derive(Clone, Copy, Debug, PartialEq, Eq, Hash, Structural)]
pub enum JointFlavor {
    /// Revolute joint limited to plus or minus pi/32 radians.
    RevoluteTight,
    /// Revolute joint limited to plus or minus pi/8 radians.
    RevoluteMedium,
    /// Revolute joint limited to plus or minus pi/4 radians.
    RevoluteLoose,
    /// Fixed joint.
    Fixed,
}

impl SocketKindId {
    /// The mesh and collider shape of sockets of this kind.
    pub open spec fn spec_metadata(self) -> (MeshId, ShapeId) {
        match self {
            SocketKindId::Fixed => (MeshId::SocketRegular, ShapeId::SocketNonHeart),
            SocketKindId::Rotating => (MeshId::SocketRotating, ShapeId::SocketNonHeart),
            SocketKindId::Attachment => (MeshId::SocketAttachment, ShapeId::SocketNonHeart),
            SocketKindId::Heart => (MeshId::SocketHeart, ShapeId::SocketHeart),
        }
    }

    /// Returns the mesh and collider shape of sockets of this kind.
    pub fn metadata(self) -> (m: (MeshId, ShapeId))
        ensures
            m == self.spec_metadata(),
    {
        match self {
            SocketKindId::Fixed => (MeshId::SocketRegular, ShapeId::SocketNonHeart),
            SocketKindId::Rotating => (MeshId::SocketRotating, ShapeId::SocketNonHeart),
            SocketKindId::Attachment => (MeshId::SocketAttachment, ShapeId::SocketNonHeart),
            SocketKindId::Heart => (MeshId::SocketHeart, ShapeId::SocketHeart),
        }
    }

    /// The joint spawned between two connected sockets of this kind.
    pub open spec fn spec_joint_flavor(self) -> JointFlavor {
        match self {
            SocketKindId::Fixed => JointFlavor::RevoluteTight,
            SocketKindId::Rotating => JointFlavor::RevoluteMedium,
            SocketKindId::Attachment => JointFlavor::RevoluteLoose,
            SocketKindId::Heart => JointFlavor::Fixed,
        }
    }

    /// Returns the joint spawned between two connected sockets of this kind.
    pub fn joint_flavor(self) -> (f: JointFlavor)
        ensures
            f == self.spec_joint_flavor(),
    {
        match self {
            SocketKindId::Fixed => JointFlavor::RevoluteTight,
            SocketKindId::Rotating => JointFlavor::RevoluteMedium,
            SocketKindId::Attachment => JointFlavor::RevoluteLoose,
            SocketKindId::Heart => JointFlavor::Fixed,
        }
    }
}

/// Constant metadata of a creature part kind, apart from socket positions and force.
#[derive(Clone, Copy, Debug, PartialEq, Eq, Hash, Structural)]
pub struct PartMetadata {
    /// Contribution of the part to the total power of its creature.
    pub power: u8,
    pub mesh: MeshId,
    pub shape: ShapeId,
    pub layer: PhysicsLayers,
}

/// The kind of a creature part.
#[derive(Clone, Copy, Debug, PartialEq, Eq, Hash, Structural)]
pub enum CreaturePartKindId {
    Heart,
    TriBlob,
    Diamond,
    Rectangle,
    HugeBlob,
    Leg,
    SmallOval,
    Spear,
}

impl CreaturePartKindId {
    /// The number of part kinds.
    pub const COUNT: usize = 8;

    /// Position of the variant in declaration order.
    pub open spec fn ordinal(self) -> nat {
        match self {
            CreaturePartKindId::Heart => 0,
            CreaturePartKindId::TriBlob => 1,
            CreaturePartKindId::Diamond => 2,
            CreaturePartKindId::Rectangle => 3,
            CreaturePartKindId::HugeBlob => 4,
            CreaturePartKindId::Leg => 5,
            CreaturePartKindId::SmallOval => 6,
            CreaturePartKindId::Spear => 7,
        }
    }

    /// Index of the variant in declaration order.
    pub fn index(self) -> (i: usize)
        ensures
            i == self.ordinal(),
            i < Self::COUNT,
    {
        match self {
            CreaturePartKindId::Heart => 0,
            CreaturePartKindId::TriBlob => 1,
            CreaturePartKindId::Diamond => 2,
            CreaturePartKindId::Rectangle => 3,
            CreaturePartKindId::HugeBlob => 4,
            CreaturePartKindId::Leg => 5,
            CreaturePartKindId::SmallOval => 6,
            CreaturePartKindId::Spear => 7,
        }
    }

    /// Returns the variant at position `i` in declaration order, if there is one.
    pub fn from_repr(i: usize) -> (k: Option<CreaturePartKindId>)
        ensures
            match k {
                Some(k) => k.ordinal() == i,
                None => i >= Self::COUNT,
            },
    {
        match i {
            0 => Some(CreaturePartKindId::Heart),
            1 => Some(CreaturePartKindId::TriBlob),
            2 => Some(CreaturePartKindId::Diamond),
            3 => Some(CreaturePartKindId::Rectangle),
            4 => Some(CreaturePartKindId::HugeBlob),
            5 => Some(CreaturePartKindId::Leg),
            6 => Some(CreaturePartKindId::SmallOval),
            7 => Some(CreaturePartKindId::Spear),
            _ => None,
        }
    }

    /// All variants in declaration order.
    pub fn variants() -> (v: Vec<CreaturePartKindId>)
        ensures
            v.len() == Self::COUNT,
            forall|i: int| 0 <= i < v.len() ==> (#[trigger] v[i]).ordinal() == i,
    {
        vec![
            CreaturePartKindId::Heart,
            CreaturePartKindId::TriBlob,
            CreaturePartKindId::Diamond,
            CreaturePartKindId::Rectangle,
            CreaturePartKindId::HugeBlob,
            CreaturePartKindId::Leg,
            CreaturePartKindId::SmallOval,
            CreaturePartKindId::Spear,
        ]
    }

    /// Power, mesh, collider shape and physics layer of parts of this kind.
    pub open spec fn spec_metadata(self) -> PartMetadata {
        match self {
            CreaturePartKindId::Heart => PartMetadata { power: 0, mesh: MeshId::PartHeart, shape: ShapeId::PartHeart, layer: PhysicsLayers::Damage },
            CreaturePartKindId::TriBlob => PartMetadata { power: 3, mesh: MeshId::PartTriBlob, shape: ShapeId::PartTriBlob, layer: PhysicsLayers::Default },
            CreaturePartKindId::Diamond => PartMetadata { power: 3, mesh: MeshId::PartDiamond, shape: ShapeId::PartDiamond, layer: PhysicsLayers::Default },
            CreaturePartKindId::Rectangle => PartMetadata { power: 1, mesh: MeshId::PartSquare, shape: ShapeId::PartSquare, layer: PhysicsLayers::Default },
            CreaturePartKindId::HugeBlob => PartMetadata { power: 32, mesh: MeshId::PartHugeBlob, shape: ShapeId::PartHugeBlob, layer: PhysicsLayers::Default },
            CreaturePartKindId::Leg => PartMetadata { power: 1, mesh: MeshId::PartLeg, shape: ShapeId::PartLeg, layer: PhysicsLayers::Default },
            CreaturePartKindId::SmallOval => PartMetadata { power: 5, mesh: MeshId::PartSmallOval, shape: ShapeId::PartSmallOval, layer: PhysicsLayers::Default },
            CreaturePartKindId::Spear => PartMetadata { power: 8, mesh: MeshId::PartSpear, shape: ShapeId::PartSpear, layer: PhysicsLayers::Default },
        }
    }

    /// The power that parts of this kind add to their creature.
    pub open spec fn power(self) -> nat {
        self.spec_metadata().power as nat
    }

    /// Returns the power, mesh, collider shape and physics layer of parts of this kind.
    pub fn metadata(self) -> (m: PartMetadata)
        ensures
            m == self.spec_metadata(),
    {
        match self {
            CreaturePartKindId::Heart => PartMetadata { power: 0, mesh: MeshId::PartHeart, shape: ShapeId::PartHeart, layer: PhysicsLayers::Damage },
            CreaturePartKindId::TriBlob => PartMetadata { power: 3, mesh: MeshId::PartTriBlob, shape: ShapeId::PartTriBlob, layer: PhysicsLayers::Default },
            CreaturePartKindId::Diamond => PartMetadata { power: 3, mesh: MeshId::PartDiamond, shape: ShapeId::PartDiamond, layer: PhysicsLayers::Default },
            CreaturePartKindId::Rectangle => PartMetadata { power: 1, mesh: MeshId::PartSquare, shape: ShapeId::PartSquare, layer: PhysicsLayers::Default },
            CreaturePartKindId::HugeBlob => PartMetadata { power: 32, mesh: MeshId::PartHugeBlob, shape: ShapeId::PartHugeBlob, layer: PhysicsLayers::Default },
            CreaturePartKindId::Leg => PartMetadata { power: 1, mesh: MeshId::PartLeg, shape: ShapeId::PartLeg, layer: PhysicsLayers::Default },
            CreaturePartKindId::SmallOval => PartMetadata { power: 5, mesh: MeshId::PartSmallOval, shape: ShapeId::PartSmallOval, layer: PhysicsLayers::Default },
            CreaturePartKindId::Spear => PartMetadata { power: 8, mesh: MeshId::PartSpear, shape: ShapeId::PartSpear, layer: PhysicsLayers::Default },
        }
    }

    /// The kinds of the sockets of parts of this kind, in socket order.
    pub open spec fn sockets(self) -> Seq<SocketKindId> {
        match self {
            CreaturePartKindId::Heart => seq![SocketKindId::Heart],
            CreaturePartKindId::TriBlob => seq![SocketKindId::Fixed, SocketKindId::Attachment, SocketKindId::Fixed, SocketKindId::Attachment, SocketKindId::Fixed, SocketKindId::Attachment, SocketKindId::Heart],
            CreaturePartKindId::Diamond => seq![SocketKindId::Rotating, SocketKindId::Attachment, SocketKindId::Attachment, SocketKindId::Attachment],
            CreaturePartKindId::Rectangle => seq![SocketKindId::Attachment],
            CreaturePartKindId::HugeBlob => seq![SocketKindId::Fixed, SocketKindId::Attachment, SocketKindId::Rotating, SocketKindId::Attachment, SocketKindId::Fixed, SocketKindId::Attachment, SocketKindId::Rotating, SocketKindId::Attachment, SocketKindId::Heart, SocketKindId::Heart, SocketKindId::Heart, SocketKindId::Heart, SocketKindId::Heart],
            CreaturePartKindId::Leg => seq![SocketKindId::Attachment],
            CreaturePartKindId::SmallOval => seq![SocketKindId::Fixed, SocketKindId::Fixed, SocketKindId::Attachment, SocketKindId::Attachment, SocketKindId::Heart, SocketKindId::Heart],
            CreaturePartKindId::Spear => seq![SocketKindId::Fixed],
        }
    }

    /// Returns the number of sockets of parts of this kind.
    pub fn socket_count(self) -> (n: usize)
        ensures
            n == self.sockets().len(),
            n <= MAX_SOCKETS,
    {
        match self {
            CreaturePartKindId::Heart => 1,
            CreaturePartKindId::TriBlob => 7,
            CreaturePartKindId::Diamond => 4,
            CreaturePartKindId::Rectangle => 1,
            CreaturePartKindId::HugeBlob => 13,
            CreaturePartKindId::Leg => 1,
            CreaturePartKindId::SmallOval => 6,
            CreaturePartKindId::Spear => 1,
        }
    }

    /// Returns the kind of socket number `i` of parts of this kind.
    pub fn socket_kind(self, i: usize) -> (s: SocketKindId)
        requires
            i < self.sockets().len(),
        ensures
            s == self.sockets()[i as int],
    {
        let ghost socks = self.sockets();
        match self {
            CreaturePartKindId::Heart => SocketKindId::Heart,
            CreaturePartKindId::TriBlob => match i { 0 => SocketKindId::Fixed, 1 => SocketKindId::Attachment, 2 => SocketKindId::Fixed, 3 => SocketKindId::Attachment, 4 => SocketKindId::Fixed, 5 => SocketKindId::Attachment, _ => SocketKindId::Heart },
            CreaturePartKindId::Diamond => match i { 0 => SocketKindId::Rotating, 1 => SocketKindId::Attachment, 2 => SocketKindId::Attachment, _ => SocketKindId::Attachment },
            CreaturePartKindId::Rectangle => SocketKindId::Attachment,
            CreaturePartKindId::HugeBlob => match i { 0 => SocketKindId::Fixed, 1 => SocketKindId::Attachment, 2 => SocketKindId::Rotating, 3 => SocketKindId::Attachment, 4 => SocketKindId::Fixed, 5 => SocketKindId::Attachment, 6 => SocketKindId::Rotating, 7 => SocketKindId::Attachment, 8 => SocketKindId::Heart, 9 => SocketKindId::Heart, 10 => SocketKindId::Heart, 11 => SocketKindId::Heart, _ => SocketKindId::Heart },
            CreaturePartKindId::Leg => SocketKindId::Attachment,
            CreaturePartKindId::SmallOval => match i { 0 => SocketKindId::Fixed, 1 => SocketKindId::Fixed, 2 => SocketKindId::Attachment, 3 => SocketKindId::Attachment, 4 => SocketKindId::Heart, _ => SocketKindId::Heart },
            CreaturePartKindId::Spear => SocketKindId::Fixed,
        }
    }
}

/// The kind of a creature, deciding how it is controlled.
#[derive(Clone, Copy, Debug, PartialEq, Eq, Hash, Structural)]
pub enum CreatureKindId {
    Player,
    HeartOnly,
    PlayerFriendly,
    Wandering,
    Hostile,
}

impl CreatureKindId {
    /// The number of creature kinds.
    pub const COUNT: usize = 5;

    /// Position of the variant in declaration order.
    pub open spec fn ordinal(self) -> nat {
        match self {
            CreatureKindId::Player => 0,
            CreatureKindId::HeartOnly => 1,
            CreatureKindId::PlayerFriendly => 2,
            CreatureKindId::Wandering => 3,
            CreatureKindId::Hostile => 4,
        }
    }

    /// Returns the variant at position `i` in declaration order, if there is one.
    pub fn from_repr(i: usize) -> (k: Option<CreatureKindId>)
        ensures
            match k {
                Some(k) => k.ordinal() == i,
                None => i >= Self::COUNT,
            },
    {
        match i {
            0 => Some(CreatureKindId::Player),
            1 => Some(CreatureKindId::HeartOnly),
            2 => Some(CreatureKindId::PlayerFriendly),
            3 => Some(CreatureKindId::Wandering),
            4 => Some(CreatureKindId::Hostile),
            _ => None,
        }
    }
}

/// Something that has happened in a creature, that all its parts react to.
///
/// The default is [`Reactable::Spawn`].
#[derive(Clone, Copy, Debug, PartialEq, Eq, Hash, Structural)]
pub enum Reactable {
    /// The creature has spawned.
    Spawn,
    /// A part has been connected.
    Connect,
    /// A part has been disconnected.
    Disconnect,
    /// A part has died.
    Death,
}

impl Default for Reactable {
    fn default() -> (r: Reactable)
        ensures
            r == Reactable::Spawn,
    {
        Reactable::Spawn
    }
}

/// Distinct part kinds have distinct positions, so `from_repr` undoes `index`.
pub proof fn lemma_part_kind_ordinal_injective(a: CreaturePartKindId, b: CreaturePartKindId)
    ensures
        a.ordinal() == b.ordinal() ==> a == b,
        a.ordinal() < CreaturePartKindId::COUNT,
{
}

/// Distinct creature kinds have distinct positions, so `from_repr` is one to one.
pub proof fn lemma_creature_kind_ordinal_injective(a: CreatureKindId, b: CreatureKindId)
    ensures
        a.ordinal() == b.ordinal() ==> a == b,
        a.ordinal() < CreatureKindId::COUNT,
{
}

/// Hearts are the only parts without power, so a heart never outweighs another part when a
/// creature splits.
pub proof fn lemma_only_hearts_are_powerless(k: CreaturePartKindId)
    ensures
        (k.power() == 0) == (k == CreaturePartKindId::Heart),
        k.power() <= 32,
{
}

/// Every part kind has at most [`MAX_SOCKETS`] sockets, and hearts have a single heart socket.
pub proof fn lemma_socket_counts(k: CreaturePartKindId)
    ensures
        k.sockets().len() <= MAX_SOCKETS,
        k.sockets().len() >= 1,
        k == CreaturePartKindId::Heart ==> k.sockets() == seq![SocketKindId::Heart],
{
}

} // verus!
