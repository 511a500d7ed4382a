//! Identifiers of the shared assets (meshes, collider shapes, materials, audio).

use vstd::prelude::*;

verus! {

/// Identifier of a unique, shared mesh.
#[derive(Clone, Copy, Debug, PartialEq, Eq, Hash, Structural)]
pub enum MeshId {
    PartHugeBlob,
    PartTriBlob,
    PartSmallOval,
    PartDiamond,
    PartSpear,
    PartLeg,
    PartSquare,
    PartHeart,
    SocketRegular,
    SocketRotating,
    SocketAttachment,
    SocketHeart,
    ProjectileNeedle,
    ConnectionLine,
}

impl MeshId {
    /// The number of variants.
    pub const COUNT: usize = 14;

    /// Position of the variant in declaration order.
    pub open spec fn ordinal(self) -> nat {
        match self {
            MeshId::PartHugeBlob => 0,
            MeshId::PartTriBlob => 1,
            MeshId::PartSmallOval => 2,
            MeshId::PartDiamond => 3,
            MeshId::PartSpear => 4,
            MeshId::PartLeg => 5,
            MeshId::PartSquare => 6,
            MeshId::PartHeart => 7,
            MeshId::SocketRegular => 8,
            MeshId::SocketRotating => 9,
            MeshId::SocketAttachment => 10,
            MeshId::SocketHeart => 11,
            MeshId::ProjectileNeedle => 12,
            MeshId::ConnectionLine => 13,
        }
    }

    /// Index of the handle of this variant in its shared storage.
    pub fn index(self) -> (i: usize)
        ensures
            i == self.ordinal(),
            i < Self::COUNT,
    {
        match self {
            MeshId::PartHugeBlob => 0,
            MeshId::PartTriBlob => 1,
            MeshId::PartSmallOval => 2,
            MeshId::PartDiamond => 3,
            MeshId::PartSpear => 4,
            MeshId::PartLeg => 5,
            MeshId::PartSquare => 6,
            MeshId::PartHeart => 7,
            MeshId::SocketRegular => 8,
            MeshId::SocketRotating => 9,
            MeshId::SocketAttachment => 10,
            MeshId::SocketHeart => 11,
            MeshId::ProjectileNeedle => 12,
            MeshId::ConnectionLine => 13,
        }
    }

    /// All variants in declaration order.
    pub fn variants() -> (v: Vec<MeshId>)
        ensures
            v.len() == Self::COUNT,
            forall|i: int| 0 <= i < v.len() ==> (#[trigger] v[i]).ordinal() == i,
    {
        vec![
            MeshId::PartHugeBlob,
            MeshId::PartTriBlob,
            MeshId::PartSmallOval,
            MeshId::PartDiamond,
            MeshId::PartSpear,
            MeshId::PartLeg,
            MeshId::PartSquare,
            MeshId::PartHeart,
            MeshId::SocketRegular,
            MeshId::SocketRotating,
            MeshId::SocketAttachment,
            MeshId::SocketHeart,
            MeshId::ProjectileNeedle,
            MeshId::ConnectionLine,
        ]
    }


}

/// Identifier of a unique, shared collider shape.
#[derive(Clone, Copy, Debug, PartialEq, Eq, Hash, Structural)]
pub enum ShapeId {
    PartHugeBlob,
    PartTriBlob,
    PartSmallOval,
    PartDiamond,
    PartSpear,
    PartLeg,
    PartSquare,
    PartHeart,
    SocketNonHeart,
    SocketHeart,
    ProjectileNeedle,
}

impl ShapeId {
    /// The number of variants.
    pub const COUNT: usize = 11;

    /// Position of the variant in declaration order.
    pub open spec fn ordinal(self) -> nat {
        match self {
            ShapeId::PartHugeBlob => 0,
            ShapeId::PartTriBlob => 1,
            ShapeId::PartSmallOval => 2,
            ShapeId::PartDiamond => 3,
            ShapeId::PartSpear => 4,
            ShapeId::PartLeg => 5,
            ShapeId::PartSquare => 6,
            ShapeId::PartHeart => 7,
            ShapeId::SocketNonHeart => 8,
            ShapeId::SocketHeart => 9,
            ShapeId::ProjectileNeedle => 10,
        }
    }

    /// Index of the handle of this variant in its shared storage.
    pub fn index(self) -> (i: usize)
        ensures
            i == self.ordinal(),
            i < Self::COUNT,
    {
        match self {
            ShapeId::PartHugeBlob => 0,
            ShapeId::PartTriBlob => 1,
            ShapeId::PartSmallOval => 2,
            ShapeId::PartDiamond => 3,
            ShapeId::PartSpear => 4,
            ShapeId::PartLeg => 5,
            ShapeId::PartSquare => 6,
            ShapeId::PartHeart => 7,
            ShapeId::SocketNonHeart => 8,
            ShapeId::SocketHeart => 9,
            ShapeId::ProjectileNeedle => 10,
        }
    }

    /// All variants in declaration order.
    pub fn variants() -> (v: Vec<ShapeId>)
        ensures
            v.len() == Self::COUNT,
            forall|i: int| 0 <= i < v.len() ==> (#[trigger] v[i]).ordinal() == i,
    {
        vec![
            ShapeId::PartHugeBlob,
            ShapeId::PartTriBlob,
            ShapeId::PartSmallOval,
            ShapeId::PartDiamond,
            ShapeId::PartSpear,
            ShapeId::PartLeg,
            ShapeId::PartSquare,
            ShapeId::PartHeart,
            ShapeId::SocketNonHeart,
            ShapeId::SocketHeart,
            ShapeId::ProjectileNeedle,
        ]
    }


}

/// Identifier of a unique, shared material.
#[derive(Clone, Copy, Debug, PartialEq, Eq, Hash, Structural)]
pub enum MaterialId {
    PartPlayer,
    PartPlayerFriendly,
    PartWandering,
    PartHostile,
    PartHeadPlayer,
    PartHeadPlayerFriendly,
    PartHeadWandering,
    PartHeadHostile,
    PartHeadHeartOnly,
    Socket,
    ConnectionLine,
    GuiDefault,
    GuiHovered,
    GuiPressed,
}

impl MaterialId {
    /// The number of variants.
    pub const COUNT: usize = 14;

    /// Position of the variant in declaration order.
    pub open spec fn ordinal(self) -> nat {
        match self {
            MaterialId::PartPlayer => 0,
            MaterialId::PartPlayerFriendly => 1,
            MaterialId::PartWandering => 2,
            MaterialId::PartHostile => 3,
            MaterialId::PartHeadPlayer => 4,
            MaterialId::PartHeadPlayerFriendly => 5,
            MaterialId::PartHeadWandering => 6,
            MaterialId::PartHeadHostile => 7,
            MaterialId::PartHeadHeartOnly => 8,
            MaterialId::Socket => 9,
            MaterialId::ConnectionLine => 10,
            MaterialId::GuiDefault => 11,
            MaterialId::GuiHovered => 12,
            MaterialId::GuiPressed => 13,
        }
    }

    /// Index of the handle of this variant in its shared storage.
    pub fn index(self) -> (i: usize)
        ensures
            i == self.ordinal(),
            i < Self::COUNT,
    {
        match self {
            MaterialId::PartPlayer => 0,
            MaterialId::PartPlayerFriendly => 1,
            MaterialId::PartWandering => 2,
            MaterialId::PartHostile => 3,
            MaterialId::PartHeadPlayer => 4,
            MaterialId::PartHeadPlayerFriendly => 5,
            MaterialId::PartHeadWandering => 6,
            MaterialId::PartHeadHostile => 7,
            MaterialId::PartHeadHeartOnly => 8,
            MaterialId::Socket => 9,
            MaterialId::ConnectionLine => 10,
            MaterialId::GuiDefault => 11,
            MaterialId::GuiHovered => 12,
            MaterialId::GuiPressed => 13,
        }
    }

    /// All variants in declaration order.
    pub fn variants() -> (v: Vec<MaterialId>)
        ensures
            v.len() == Self::COUNT,
            forall|i: int| 0 <= i < v.len() ==> (#[trigger] v[i]).ordinal() == i,
    {
        vec![
            MaterialId::PartPlayer,
            MaterialId::PartPlayerFriendly,
            MaterialId::PartWandering,
            MaterialId::PartHostile,
            MaterialId::PartHeadPlayer,
            MaterialId::PartHeadPlayerFriendly,
            MaterialId::PartHeadWandering,
            MaterialId::PartHeadHostile,
            MaterialId::PartHeadHeartOnly,
            MaterialId::Socket,
            MaterialId::ConnectionLine,
            MaterialId::GuiDefault,
            MaterialId::GuiHovered,
            MaterialId::GuiPressed,
        ]
    }


}

/// Identifier of a unique, shared audio source.
#[derive(Clone, Copy, Debug, PartialEq, Eq, Hash, Structural)]
pub enum AudioId {
    SocketDrag,
    SocketHoverWithLine,
    SocketConnect,
}

impl AudioId {
    /// The number of variants.
    pub const COUNT: usize = 3;

    /// Position of the variant in declaration order.
    pub open spec fn ordinal(self) -> nat {
        match self {
            AudioId::SocketDrag => 0,
            AudioId::SocketHoverWithLine => 1,
            AudioId::SocketConnect => 2,
        }
    }

    /// Index of the handle of this variant in its shared storage.
    pub fn index(self) -> (i: usize)
        ensures
            i == self.ordinal(),
            i < Self::COUNT,
    {
        match self {
            AudioId::SocketDrag => 0,
            AudioId::SocketHoverWithLine => 1,
            AudioId::SocketConnect => 2,
        }
    }

    /// All variants in declaration order.
    pub fn variants() -> (v: Vec<AudioId>)
        ensures
            v.len() == Self::COUNT,
            forall|i: int| 0 <= i < v.len() ==> (#[trigger] v[i]).ordinal() == i,
    {
        vec![
            AudioId::SocketDrag,
            AudioId::SocketHoverWithLine,
            AudioId::SocketConnect,
        ]
    }

    /// Name of the audio file inside the assets folder.
    pub fn file_name(self) -> (name: &'static str)
        ensures
            name@ == self.spec_file_name()@,
    {
        match self {
            AudioId::SocketDrag => "socket_drag.flac",
            AudioId::SocketHoverWithLine => "socket_hover_with_line.flac",
            AudioId::SocketConnect => "socket_connect.flac",
        }
    }

    /// The file name that [`Self::file_name`] returns.
    pub open spec fn spec_file_name(self) -> &'static str {
        match self {
            AudioId::SocketDrag => "socket_drag.flac",
            AudioId::SocketHoverWithLine => "socket_hover_with_line.flac",
            AudioId::SocketConnect => "socket_connect.flac",
        }
    }

}

} // verus!
